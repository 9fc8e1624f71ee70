//! Module nodes: namespaces that hold functions and further namespaces.

use vstd::prelude::*;
use crate::error::ConfigurationError;
use crate::path::{all_segments, are_valid_segments, is_segment, is_valid_segment, texts};

verus! {

/// Names a function by its place in the table of the root module that holds
/// it. Two bindings lead to the same implementation exactly when they carry
/// the same id.
pub type FunctionId = usize;

/// What a path leads to.
#[derive(Clone, Copy, Debug, PartialEq, Eq, Structural)]
pub enum Item {
    /// A module node.
    Module,
    /// The exported function with this id.
    Function(FunctionId),
}

/// What a name is bound to in a module node, as a caller gets to see it.
#[derive(Debug)]
pub enum Member<'a> {
    /// The exported function with this id.
    Function(FunctionId),
    /// A child node.
    Module(&'a ModuleNode),
}

/// What a name is bound to inside a module node: an exported function, by
/// its id, or a child node.
#[derive(Debug)]
enum Entry {
    Function(FunctionId),
    Module(ModuleNode),
}

/// One key of a module node, with what it is bound to.
#[derive(Debug)]
struct Binding {
    name: String,
    entry: Entry,
}

/// A namespace: local names bound to exported functions and to child module
/// nodes. A node owns its children, so what hangs below a node is a finite
/// tree.
#[derive(Debug)]
pub struct ModuleNode {
    bindings: Vec<Binding>,
}

/// The first place at or behind `from` where `name` stands as a key.
spec fn find_from(bindings: Seq<Binding>, name: Seq<char>, from: int) -> Option<int>
    decreases bindings.len() - from,
{
    if from < 0 || from >= bindings.len() {
        None
    } else if bindings[from].name@ == name {
        Some(from)
    } else {
        find_from(bindings, name, from + 1)
    }
}

proof fn lemma_find_in_range(bindings: Seq<Binding>, name: Seq<char>, from: int)
    requires
        0 <= from,
    ensures
        match find_from(bindings, name, from) {
            Some(j) => from <= j < bindings.len() && bindings[j].name@ == name,
            None => forall|k: int| from <= k < bindings.len() ==> (#[trigger] bindings[k]).name@ != name,
        },
    decreases bindings.len() - from,
{
    if from < bindings.len() && bindings[from].name@ != name {
        lemma_find_in_range(bindings, name, from + 1);
    }
}

/// Binding one more key at the end leaves every earlier answer as it was.
proof fn lemma_find_after_push(bindings: Seq<Binding>, added: Binding, name: Seq<char>, from: int)
    requires
        0 <= from <= bindings.len(),
    ensures
        find_from(bindings.push(added), name, from) == match find_from(bindings, name, from) {
            Some(j) => Some(j),
            None => if added.name@ == name {
                Some(bindings.len() as int)
            } else {
                None
            },
        },
    decreases bindings.len() - from,
{
    let longer = bindings.push(added);
    if from < bindings.len() {
        assert(longer[from] == bindings[from]);
        if bindings[from].name@ != name {
            lemma_find_after_push(bindings, added, name, from + 1);
        }
    } else {
        assert(longer[from] == added);
        assert(find_from(longer, name, from + 1) == None::<int>);
    }
}

/// Two lists with the same keys in the same places answer alike.
proof fn lemma_find_same_keys(a: Seq<Binding>, b: Seq<Binding>, name: Seq<char>, from: int)
    requires
        0 <= from,
        a.len() == b.len(),
        forall|k: int| 0 <= k < a.len() ==> (#[trigger] a[k]).name@ == (#[trigger] b[k]).name@,
    ensures
        find_from(a, name, from) == find_from(b, name, from),
    decreases a.len() - from,
{
    if from < a.len() {
        assert(a[from].name@ == b[from].name@);
        if a[from].name@ != name {
            lemma_find_same_keys(a, b, name, from + 1);
        }
    }
}

/// What lies below a node: every path that leads somewhere, with what it
/// leads to. The empty path leads to the node itself.
pub type Namespace = Map<Seq<Seq<char>>, Item>;

/// In `space`, `path` leads to `item`.
pub open spec fn leads_to(space: Namespace, path: Seq<Seq<char>>, item: Item) -> bool {
    space.get(path) == Some(item)
}

/// Whether binding `name` to the function `id` in the module at `path` runs
/// into something that `space` already holds: a function standing where the
/// path needs a module, or `name` itself bound to anything but that same
/// function.
pub open spec fn is_blocked(
    space: Namespace,
    path: Seq<Seq<char>>,
    name: Seq<char>,
    id: FunctionId,
) -> bool {
    ||| exists|k: int|
        1 <= k <= path.len() && space.dom().contains(#[trigger] path.take(k)) && space[path.take(
            k,
        )] is Function
    ||| (space.dom().contains(path.push(name)) && space[path.push(name)] != Item::Function(id))
}

/// `space` with `name` bound to the function `id` in the module at `path`:
/// the new binding, the modules on the way to it, and everywhere else what
/// was there before.
pub open spec fn with_binding(
    space: Namespace,
    path: Seq<Seq<char>>,
    name: Seq<char>,
    id: FunctionId,
) -> Namespace {
    Map::new(
        |q: Seq<Seq<char>>| q == path.push(name) || q.is_prefix_of(path) || space.dom().contains(q),
        |q: Seq<Seq<char>>|
            if q == path.push(name) {
                Item::Function(id)
            } else if q.is_prefix_of(path) {
                Item::Module
            } else {
                space[q]
            },
    )
}

/// How a registration ends: refused for a name that is no segment, refused
/// for a collision, or accepted.
pub open spec fn registration(
    space: Namespace,
    path: Seq<Seq<char>>,
    name: Seq<char>,
    id: FunctionId,
) -> Result<(), ConfigurationError> {
    if !all_segments(path) || !is_segment(name) {
        Err(ConfigurationError::InvalidName)
    } else if is_blocked(space, path, name, id) {
        Err(ConfigurationError::Collision)
    } else {
        Ok(())
    }
}

/// What following one step down a path does to the two questions asked of
/// a query: is it the new binding, and is it on the way to it.
proof fn lemma_step_down(q: Seq<Seq<char>>, path: Seq<Seq<char>>, name: Seq<char>)
    requires
        q.len() > 0,
        path.len() > 0,
        q[0] == path[0],
    ensures
        (q == path.push(name)) <==> (q.skip(1) == path.skip(1).push(name)),
        q.is_prefix_of(path) <==> q.skip(1).is_prefix_of(path.skip(1)),
{
    if q == path.push(name) {
        assert(q.skip(1) =~= path.skip(1).push(name));
    }
    if q.skip(1) == path.skip(1).push(name) {
        assert(q.skip(1).len() == path.len());
        assert forall|i: int| 0 <= i < q.len() implies q[i] == path.push(name)[i] by {
            if i > 0 {
                assert(q[i] == q.skip(1)[i - 1]);
            }
        }
        assert(q =~= path.push(name));
    }
    if q.is_prefix_of(path) {
        let cut = path.subrange(0, q.len() as int);
        assert forall|i: int| 0 <= i < q.len() - 1 implies q.skip(1)[i] == path.skip(1).subrange(
            0,
            q.len() - 1,
        )[i] by {
            assert(q[i + 1] == cut[i + 1]);
        }
        assert(q.skip(1) =~= path.skip(1).subrange(0, q.len() - 1));
    }
    if q.skip(1).is_prefix_of(path.skip(1)) {
        let cut = path.skip(1).subrange(0, q.len() - 1);
        assert forall|i: int| 0 <= i < q.len() implies q[i] == path.subrange(0, q.len() as int)[i] by {
            if i > 0 {
                assert(q[i] == q.skip(1)[i - 1]);
                assert(q.skip(1)[i - 1] == cut[i - 1]);
            }
        }
        assert(q =~= path.subrange(0, q.len() as int));
    }
}

impl View for ModuleNode {
    type V = Namespace;

    closed spec fn view(&self) -> Namespace {
        Map::new(
            |q: Seq<Seq<char>>| self.item_at(q) is Some,
            |q: Seq<Seq<char>>| self.item_at(q)->0,
        )
    }
}

impl ModuleNode {
    /// Where `name` stands among the keys of this node, if it does.
    spec fn position(self, name: Seq<char>) -> Option<int> {
        find_from(self.bindings@, name, 0)
    }

    /// What `path`, read from this node downwards, leads to. The empty path
    /// leads to the node itself; a function ends a path.
    spec fn item_at(self, path: Seq<Seq<char>>) -> Option<Item>
        decreases path.len(),
    {
        if path.len() == 0 {
            Some(Item::Module)
        } else {
            match self.position(path[0]) {
                None => None,
                Some(j) => match self.bindings[j].entry {
                    Entry::Function(id) => if path.len() == 1 {
                        Some(Item::Function(id))
                    } else {
                        None
                    },
                    Entry::Module(child) => child.item_at(path.skip(1)),
                },
            }
        }
    }

    /// The invariant of a node: every key is a segment, no key stands twice
    /// in one node, and every child node is well formed in turn.
    pub closed spec fn wf(self) -> bool
        decreases self,
    {
        &&& forall|i: int|
            0 <= i < self.bindings.len() ==> is_segment((#[trigger] self.bindings[i]).name@)
        &&& forall|i: int, j: int|
            0 <= i < j < self.bindings.len() ==> (#[trigger] self.bindings[i]).name@ != (
            #[trigger] self.bindings[j]).name@
        &&& forall|i: int|
            0 <= i < self.bindings.len() ==> match (#[trigger] self.bindings[i]).entry {
                Entry::Function(_) => true,
                Entry::Module(child) => child.wf(),
            }
    }

    /// The view, read at one path.
    proof fn lemma_view_at(self, q: Seq<Seq<char>>)
        ensures
            self@.get(q) == self.item_at(q),
            self@.dom().contains(q) == (self.item_at(q) is Some),
    {
    }

    /// What lies below a well-formed node is a tree: a path that leads
    /// somewhere is made of segments, and what lies directly above it is a
    /// module.
    pub proof fn law_node_is_a_tree(self, q: Seq<Seq<char>>)
        requires
            self.wf(),
            self@.dom().contains(q),
        ensures
            all_segments(q),
            q.len() > 0 ==> self@.get(q.drop_last()) == Some(Item::Module),
        decreases q.len(),
    {
        if q.len() > 0 {
            lemma_find_in_range(self.bindings@, q[0], 0);
            let j = self.position(q[0])->0;
            let above = q.drop_last();
            assert(is_segment(self.bindings[j].name@));
            match self.bindings[j].entry {
                Entry::Function(_) => {
                    assert(above.len() == 0);
                },
                Entry::Module(child) => {
                    let rest = q.skip(1);
                    child.law_node_is_a_tree(rest);
                    assert forall|i: int| 0 <= i < q.len() implies is_segment(#[trigger] q[i]) by {
                        if i > 0 {
                            assert(q[i] == rest[i - 1]);
                        }
                    }
                    if above.len() > 0 {
                        assert(above[0] == q[0]);
                        assert(above.skip(1) =~= rest.drop_last());
                        child.lemma_view_at(rest.drop_last());
                    }
                },
            }
        }
    }

    /// A node without bindings.
    pub fn new() -> (node: ModuleNode)
        ensures
            node.wf(),
            node@ == map![Seq::<Seq<char>>::empty() => Item::Module],
    {
        let node = ModuleNode { bindings: Vec::new() };
        proof {
            node.lemma_empty();
        }
        node
    }

    proof fn lemma_empty(self)
        requires
            self.bindings@.len() == 0,
        ensures
            self.wf(),
            self@ == map![Seq::<Seq<char>>::empty() => Item::Module],
            forall|q: Seq<Seq<char>>| q.len() > 0 ==> #[trigger] self.item_at(q) == None::<Item>,
    {
        let expected = map![Seq::<Seq<char>>::empty() => Item::Module];
        assert forall|q: Seq<Seq<char>>| q.len() > 0 implies #[trigger] self.item_at(q)
            == None::<Item> by {
            assert(find_from(self.bindings@, q[0], 0) == None::<int>);
        }
        assert forall|q: Seq<Seq<char>>| #[trigger]
            self@.dom().contains(q) <==> expected.dom().contains(q) by {
            if q.len() == 0 {
                assert(q =~= Seq::<Seq<char>>::empty());
            }
        }
        assert forall|q: Seq<Seq<char>>| #[trigger] self@.dom().contains(q) implies self@[q]
            == expected[q] by {
            assert(q =~= Seq::<Seq<char>>::empty());
        }
        assert(self@ =~= expected);
    }

    /// Looks `name` up among the keys of this node.
    fn find(&self, name: &String) -> (r: Option<usize>)
        ensures
            match r {
                Some(j) => self.position(name@) == Some(j as int) && j < self.bindings.len(),
                None => self.position(name@) == None::<int>,
            },
    {
        let mut i: usize = 0;
        while i < self.bindings.len()
            invariant
                i <= self.bindings.len(),
                find_from(self.bindings@, name@, 0) == find_from(self.bindings@, name@, i as int),
            decreases self.bindings.len() - i,
        {
            if self.bindings[i].name == *name {
                return Some(i);
            }
            i = i + 1;
        }
        None
    }

    /// Follows `segments` from this node downwards.
    pub fn resolve(&self, segments: &Vec<String>) -> (r: Option<Item>)
        ensures
            r == self@.get(texts(segments@)),
    {
        assert(texts(segments@).skip(0) =~= texts(segments@));
        self.resolve_from(segments, 0)
    }

    fn resolve_from(&self, segments: &Vec<String>, from: usize) -> (r: Option<Item>)
        requires
            from <= segments.len(),
        ensures
            r == self.item_at(texts(segments@).skip(from as int)),
            r == self@.get(texts(segments@).skip(from as int)),
        decreases segments.len() - from,
    {
        let ghost rest = texts(segments@).skip(from as int);
        if from == segments.len() {
            return Some(Item::Module);
        }
        assert(rest[0] == segments@[from as int]@);
        match self.find(&segments[from]) {
            None => None,
            Some(j) => match &self.bindings[j].entry {
                Entry::Function(id) => if from + 1 == segments.len() {
                    Some(Item::Function(*id))
                } else {
                    None
                },
                Entry::Module(child) => {
                    assert(rest.skip(1) =~= texts(segments@).skip(from + 1));
                    child.resolve_from(segments, from + 1)
                },
            },
        }
    }

    /// The names bound in this very node, each once, in no promised order.
    pub fn names(&self) -> (names: Vec<String>)
        ensures
            forall|name: Seq<char>|
                texts(names@).contains(name) <==> self@.dom().contains(seq![name]),
            self.wf() ==> texts(names@).no_duplicates(),
    {
        let mut names: Vec<String> = Vec::new();
        let mut i: usize = 0;
        while i < self.bindings.len()
            invariant
                i <= self.bindings.len(),
                names.len() == i,
                forall|k: int| 0 <= k < i ==> (#[trigger] texts(names@)[k]) == self.bindings[k].name@,
            decreases self.bindings.len() - i,
        {
            let ghost before = texts(names@);
            names.push(self.bindings[i].name.clone());
            assert(texts(names@) =~= before.push(self.bindings[i as int].name@));
            i = i + 1;
        }
        proof {
            let listed = texts(names@);
            if self.wf() {
                assert forall|a: int, b: int|
                    0 <= a < listed.len() && 0 <= b < listed.len() && a != b implies listed[a]
                    != listed[b] by {
                    if a < b {
                        assert(self.bindings[a].name@ != self.bindings[b].name@);
                    } else {
                        assert(self.bindings[b].name@ != self.bindings[a].name@);
                    }
                }
            }
            assert forall|name: Seq<char>| listed.contains(name) <==> self@.dom().contains(
                seq![name],
            ) by {
                lemma_find_in_range(self.bindings@, name, 0);
                self.lemma_one_step(name);
                if listed.contains(name) {
                    let k = choose|k: int| 0 <= k < listed.len() && listed[k] == name;
                    assert(self.bindings[k].name@ == name);
                }
                if self.position(name) is Some {
                    let j = self.position(name)->0;
                    assert(listed[j] == name);
                }
            }
        }
        names
    }

    /// What `name` is bound to in this very node.
    pub fn get(&self, name: &str) -> (r: Option<Member<'_>>)
        ensures
            match r {
                None => !self@.dom().contains(seq![name@]),
                Some(Member::Function(id)) => self@.get(seq![name@]) == Some(Item::Function(id)),
                Some(Member::Module(child)) => {
                    &&& self@.get(seq![name@]) == Some(Item::Module)
                    &&& forall|q: Seq<Seq<char>>| #[trigger]
                        child@.get(q) == self@.get(seq![name@] + q)
                    &&& self.wf() ==> child.wf()
                },
            },
    {
        let key = name.to_owned();
        proof {
            self.lemma_one_step(name@);
        }
        match self.find(&key) {
            None => None,
            Some(j) => match &self.bindings[j].entry {
                Entry::Function(id) => Some(Member::Function(*id)),
                Entry::Module(child) => {
                    proof {
                        self.lemma_below(j as int, name@);
                    }
                    Some(Member::Module(child))
                },
            },
        }
    }

    /// The module node that `segments` lead to from this node, if they lead
    /// to one. No segments at all lead to this node itself.
    pub fn node_at(&self, segments: &Vec<String>) -> (r: Option<&ModuleNode>)
        ensures
            match r {
                Some(node) => {
                    &&& self@.get(texts(segments@)) == Some(Item::Module)
                    &&& forall|q: Seq<Seq<char>>| #[trigger]
                        node@.get(q) == self@.get(texts(segments@) + q)
                    &&& self.wf() ==> node.wf()
                },
                None => self@.get(texts(segments@)) != Some(Item::Module),
            },
    {
        let mut node = self;
        let mut i: usize = 0;
        let ghost path = texts(segments@);
        assert(path.take(0) =~= Seq::<Seq<char>>::empty());
        assert forall|q: Seq<Seq<char>>| #[trigger] node@.get(q) == self@.get(path.take(0) + q) by {
            assert(path.take(0) + q =~= q);
        }
        while i < segments.len()
            invariant
                i <= segments.len(),
                path == texts(segments@),
                forall|q: Seq<Seq<char>>| #[trigger] node@.get(q) == self@.get(path.take(i as int) + q),
                self.wf() ==> node.wf(),
            decreases segments.len() - i,
        {
            let ghost above = node;
            let ghost head = path[i as int];
            assert(head == segments@[i as int]@);
            proof {
                above.lemma_one_step(head);
                assert(path.take(i as int) + seq![head] =~= path.take(i + 1));
                assert(above@.get(seq![head]) == self@.get(path.take(i as int) + seq![head]));
            }
            match node.find(&segments[i]) {
                None => {
                    proof {
                        assert(path.take(i as int) + path.skip(i as int) =~= path);
                        assert(path.skip(i as int)[0] == head);
                        above.lemma_view_at(path.skip(i as int));
                    }
                    return None;
                },
                Some(j) => match &node.bindings[j].entry {
                    Entry::Function(_) => {
                        proof {
                            assert(path.take(i as int) + path.skip(i as int) =~= path);
                            assert(path.skip(i as int)[0] == head);
                            above.lemma_view_at(path.skip(i as int));
                        }
                        return None;
                    },
                    Entry::Module(child) => {
                        proof {
                            above.lemma_below(j as int, head);
                            assert forall|q: Seq<Seq<char>>| #[trigger]
                                child@.get(q) == self@.get(path.take(i + 1) + q) by {
                                assert(child@.get(q) == above@.get(seq![head] + q));
                                assert(path.take(i as int) + (seq![head] + q) =~= path.take(i + 1) + q);
                            }
                        }
                        node = child;
                    },
                },
            }
            i = i + 1;
        }
        proof {
            assert(path.take(i as int) =~= path);
            assert(path + Seq::<Seq<char>>::empty() =~= path);
            assert(node@.get(Seq::<Seq<char>>::empty()) == Some(Item::Module));
        }
        Some(node)
    }

    /// What a single name leads to.
    proof fn lemma_one_step(self, name: Seq<char>)
        ensures
            self@.get(seq![name]) == match self.position(name) {
                None => None::<Item>,
                Some(j) => match self.bindings[j].entry {
                    Entry::Function(id) => Some(Item::Function(id)),
                    Entry::Module(_) => Some(Item::Module),
                },
            },
    {
        let q = seq![name];
        assert(q[0] == name);
        if self.position(name) is Some {
            let j = self.position(name)->0;
            match self.bindings[j].entry {
                Entry::Function(_) => {},
                Entry::Module(child) => {
                    assert(child.item_at(q.skip(1)) == Some(Item::Module));
                },
            }
        }
    }

    /// What lies below a child node is what lies below its name here.
    proof fn lemma_below(self, j: int, name: Seq<char>)
        requires
            self.position(name) == Some(j),
            0 <= j < self.bindings.len(),
            self.bindings[j].entry is Module,
        ensures
            forall|q: Seq<Seq<char>>| #[trigger]
                self.bindings[j].entry->Module_0@.get(q) == self@.get(seq![name] + q),
            self.wf() ==> self.bindings[j].entry->Module_0.wf(),
    {
        let child = self.bindings[j].entry->Module_0;
        assert forall|q: Seq<Seq<char>>| #[trigger] child@.get(q) == self@.get(seq![name] + q) by {
            let longer = seq![name] + q;
            assert(longer[0] == name);
            assert(longer.skip(1) =~= q);
        }
    }

    /// Binds `name` to the function `id` in this very node. A name that is
    /// bound to that same function already stays as it is. The node is left
    /// untouched when the registration is refused.
    pub fn register(&mut self, name: &str, id: FunctionId) -> (r: Result<(), ConfigurationError>)
        ensures
            old(self).wf() ==> final(self).wf(),
            r == registration(old(self)@, Seq::<Seq<char>>::empty(), name@, id),
            r is Ok ==> final(self)@ == with_binding(
                old(self)@,
                Seq::<Seq<char>>::empty(),
                name@,
                id,
            ),
            r is Err ==> final(self)@ == old(self)@,
    {
        let path: Vec<String> = Vec::new();
        assert(texts(path@) =~= Seq::<Seq<char>>::empty());
        self.register_at(&path, name, id)
    }

    /// Binds `name` to the function `id` in the module that `path` leads to
    /// from this node, and makes the modules on the way that are not there
    /// yet. The node is left untouched when the registration is refused.
    pub fn register_at(
        &mut self,
        path: &Vec<String>,
        name: &str,
        id: FunctionId,
    ) -> (r: Result<(), ConfigurationError>)
        ensures
            old(self).wf() ==> final(self).wf(),
            r == registration(old(self)@, texts(path@), name@, id),
            r is Ok ==> final(self)@ == with_binding(old(self)@, texts(path@), name@, id),
            r is Err ==> final(self)@ == old(self)@,
    {
        if !are_valid_segments(path) || !is_valid_segment(name) {
            return Err(ConfigurationError::InvalidName);
        }
        let name = name.to_owned();
        assert(texts(path@).skip(0) =~= texts(path@));
        if self.place(path, 0, &name, id) {
            Ok(())
        } else {
            Err(ConfigurationError::Collision)
        }
    }

    /// The recursion behind [`ModuleNode::register_at`]: `path` is read from
    /// its place `from` on.
    pub(crate) fn place(
        &mut self,
        path: &Vec<String>,
        from: usize,
        name: &String,
        id: FunctionId,
    ) -> (placed: bool)
        requires
            from <= path.len(),
            all_segments(texts(path@).skip(from as int)),
            is_segment(name@),
        ensures
            old(self).wf() ==> final(self).wf(),
            placed == !is_blocked(old(self)@, texts(path@).skip(from as int), name@, id),
            placed ==> final(self)@ == with_binding(
                old(self)@,
                texts(path@).skip(from as int),
                name@,
                id,
            ),
            !placed ==> final(self)@ == old(self)@,
        decreases path.len() - from,
    {
        let ghost rest = texts(path@).skip(from as int);
        let ghost before = *self;
        if from == path.len() {
            match self.find(name) {
                None => {
                    let added = Binding { name: name.clone(), entry: Entry::Function(id) };
                    self.bindings.push(added);
                    proof {
                        before.lemma_bound_here(*self, added, name@, id);
                        assert(rest =~= Seq::<Seq<char>>::empty());
                    }
                    true
                },
                Some(j) => {
                    let same = match &self.bindings[j].entry {
                        Entry::Function(bound) => *bound == id,
                        Entry::Module(_) => false,
                    };
                    proof {
                        assert(rest =~= Seq::<Seq<char>>::empty());
                        before.lemma_taken_here(j as int, name@, id);
                    }
                    same
                },
            }
        } else {
            let head = &path[from];
            proof {
                assert(rest[0] == head@);
                assert(rest.skip(1) =~= texts(path@).skip(from + 1));
                assert(is_segment(rest[0]));
                assert forall|i: int| 0 <= i < rest.skip(1).len() implies is_segment(
                    #[trigger] rest.skip(1)[i],
                ) by {
                    assert(rest.skip(1)[i] == rest[i + 1]);
                }
            }
            match self.find(head) {
                None => {
                    let mut child = ModuleNode::new();
                    let ghost fresh = child;
                    let placed = child.place(path, from + 1, name, id);
                    proof {
                        fresh.lemma_nothing_blocks_empty(rest.skip(1), name@, id);
                    }
                    let added = Binding { name: head.clone(), entry: Entry::Module(child) };
                    self.bindings.push(added);
                    proof {
                        before.lemma_bound_below_new(*self, added, fresh, child, rest, name@, id);
                    }
                    placed
                },
                Some(j) => {
                    let placed = match &mut self.bindings[j].entry {
                        Entry::Function(_) => false,
                        Entry::Module(child) => child.place(path, from + 1, name, id),
                    };
                    proof {
                        before.lemma_bound_below(*self, j as int, rest, name@, id, placed);
                    }
                    placed
                },
            }
        }
    }

    /// A well-formed node stays well formed when a new key that is a segment
    /// is bound, at the end, to a function or to a well-formed node.
    proof fn lemma_wf_after_push(self, after: ModuleNode, added: Binding)
        requires
            self.wf(),
            is_segment(added.name@),
            self.position(added.name@) == None::<int>,
            added.entry matches Entry::Module(child) ==> child.wf(),
            after.bindings@ == self.bindings@.push(added),
        ensures
            after.wf(),
    {
        lemma_find_in_range(self.bindings@, added.name@, 0);
        assert forall|i: int| 0 <= i < after.bindings.len() implies is_segment(
            (#[trigger] after.bindings[i]).name@,
        ) by {
            if i < self.bindings.len() {
                assert(after.bindings[i] == self.bindings[i]);
            }
        }
        assert forall|i: int, j: int| 0 <= i < j < after.bindings.len() implies (
        #[trigger] after.bindings[i]).name@ != (#[trigger] after.bindings[j]).name@ by {
            assert(after.bindings[i] == self.bindings[i]);
            if j < self.bindings.len() {
                assert(after.bindings[j] == self.bindings[j]);
            }
        }
        assert forall|i: int| 0 <= i < after.bindings.len() implies match (
        #[trigger] after.bindings[i]).entry {
            Entry::Function(_) => true,
            Entry::Module(child) => child.wf(),
        } by {
            if i < self.bindings.len() {
                assert(after.bindings[i] == self.bindings[i]);
            }
        }
    }

    /// Binding a free name to a function in this node.
    proof fn lemma_bound_here(
        self,
        after: ModuleNode,
        added: Binding,
        name: Seq<char>,
        id: FunctionId,
    )
        requires
            is_segment(name),
            self.position(name) == None::<int>,
            added.name@ == name,
            added.entry == Entry::Function(id),
            after.bindings@ == self.bindings@.push(added),
        ensures
            self.wf() ==> after.wf(),
            !is_blocked(self@, Seq::<Seq<char>>::empty(), name, id),
            after@ == with_binding(self@, Seq::<Seq<char>>::empty(), name, id),
    {
        let here = Seq::<Seq<char>>::empty();
        lemma_find_in_range(self.bindings@, name, 0);
        assert(self.wf() ==> after.wf()) by {
            if self.wf() {
                self.lemma_wf_after_push(after, added);
            }
        }
        assert(here.push(name)[0] == name);
        assert(self.item_at(here.push(name)) == None::<Item>);
        assert(!is_blocked(self@, here, name, id));
        let expected = with_binding(self@, here, name, id);
        assert forall|q: Seq<Seq<char>>| after.item_at(q) == expected.get(q) by {
            if q.len() == 0 {
                assert(q.is_prefix_of(here));
            } else {
                lemma_find_after_push(self.bindings@, added, q[0], 0);
                assert(!q.is_prefix_of(here));
                if q[0] == name {
                    assert(after.position(q[0]) == Some(self.bindings@.len() as int));
                    assert(after.bindings[self.bindings@.len() as int] == added);
                    if q.len() == 1 {
                        assert(q =~= here.push(name));
                    }
                    assert(self.item_at(q) == None::<Item>);
                } else {
                    assert(after.position(q[0]) == self.position(q[0]));
                    if self.position(q[0]) is Some {
                        lemma_find_in_range(self.bindings@, q[0], 0);
                        let j = self.position(q[0])->0;
                        assert(after.bindings[j] == self.bindings[j]);
                    }
                    assert(after.item_at(q) == self.item_at(q));
                }
            }
        }
        lemma_same_space(after@, expected);
    }

    /// The name is there already: the registration stands exactly when it is
    /// bound to the same function, and then nothing changes.
    proof fn lemma_taken_here(self, j: int, name: Seq<char>, id: FunctionId)
        requires
            self.position(name) == Some(j),
            0 <= j < self.bindings.len(),
        ensures
            is_blocked(self@, Seq::<Seq<char>>::empty(), name, id) == (self.bindings[j].entry
                != Entry::Function(id)),
            self.bindings[j].entry == Entry::Function(id) ==> self@ == with_binding(
                self@,
                Seq::<Seq<char>>::empty(),
                name,
                id,
            ),
    {
        let here = Seq::<Seq<char>>::empty();
        let target = here.push(name);
        assert(target[0] == name);
        assert(target.skip(1) =~= here);
        match self.bindings[j].entry {
            Entry::Function(bound) => {
                assert(self.item_at(target) == Some(Item::Function(bound)));
            },
            Entry::Module(child) => {
                assert(child.item_at(here) == Some(Item::Module));
                assert(self.item_at(target) == Some(Item::Module));
            },
        }
        if self.bindings[j].entry == Entry::Function(id) {
            let expected = with_binding(self@, here, name, id);
            assert forall|q: Seq<Seq<char>>| self.item_at(q) == expected.get(q) by {
                if q.is_prefix_of(here) {
                    assert(q.len() == 0);
                }
            }
            lemma_same_space(self@, expected);
        }
    }

    /// Nothing stands in the way in a node without bindings.
    proof fn lemma_nothing_blocks_empty(self, path: Seq<Seq<char>>, name: Seq<char>, id: FunctionId)
        requires
            self@ == map![Seq::<Seq<char>>::empty() => Item::Module],
        ensures
            !is_blocked(self@, path, name, id),
    {
        assert forall|k: int| 1 <= k <= path.len() implies !self@.dom().contains(
            #[trigger] path.take(k),
        ) by {
            assert(path.take(k).len() > 0);
        }
        assert(path.push(name).len() > 0);
    }

    /// A module that was not there is made, with the binding below it.
    proof fn lemma_bound_below_new(
        self,
        after: ModuleNode,
        added: Binding,
        fresh: ModuleNode,
        child: ModuleNode,
        path: Seq<Seq<char>>,
        name: Seq<char>,
        id: FunctionId,
    )
        requires
            child.wf(),
            path.len() > 0,
            is_segment(path[0]),
            self.position(path[0]) == None::<int>,
            fresh@ == map![Seq::<Seq<char>>::empty() => Item::Module],
            child@ == with_binding(fresh@, path.skip(1), name, id),
            added.name@ == path[0],
            added.entry == Entry::Module(child),
            after.bindings@ == self.bindings@.push(added),
        ensures
            self.wf() ==> after.wf(),
            !is_blocked(self@, path, name, id),
            after@ == with_binding(self@, path, name, id),
    {
        let head = path[0];
        lemma_find_in_range(self.bindings@, head, 0);
        assert(self.wf() ==> after.wf()) by {
            if self.wf() {
                self.lemma_wf_after_push(after, added);
            }
        }
        assert forall|q: Seq<Seq<char>>| q.len() > 0 && q[0] == head implies self.item_at(q)
            == None::<Item> by {}
        assert(!is_blocked(self@, path, name, id)) by {
            assert forall|k: int| 1 <= k <= path.len() implies !self@.dom().contains(
                #[trigger] path.take(k),
            ) by {
                assert(path.take(k)[0] == head);
            }
            assert(path.push(name)[0] == head);
        }
        let expected = with_binding(self@, path, name, id);
        assert forall|q: Seq<Seq<char>>| after.item_at(q) == expected.get(q) by {
            if q.len() == 0 {
                assert(q.is_prefix_of(path));
            } else {
                lemma_find_after_push(self.bindings@, added, q[0], 0);
                if q[0] == head {
                    lemma_step_down(q, path, name);
                    assert(after.bindings[self.bindings@.len() as int] == added);
                    assert(after.item_at(q) == child.item_at(q.skip(1)));
                    child.lemma_view_at(q.skip(1));
                    if q.skip(1) != path.skip(1).push(name) && !q.skip(1).is_prefix_of(path.skip(1)) {
                        assert(q.skip(1).len() > 0);
                    }
                } else {
                    assert(q != path.push(name)) by {
                        assert(path.push(name)[0] == head);
                    }
                    assert(!q.is_prefix_of(path)) by {
                        if q.is_prefix_of(path) {
                            assert(q[0] == path.subrange(0, q.len() as int)[0]);
                        }
                    }
                    if self.position(q[0]) is Some {
                        lemma_find_in_range(self.bindings@, q[0], 0);
                        let j = self.position(q[0])->0;
                        assert(after.bindings[j] == self.bindings[j]);
                    }
                    assert(after.item_at(q) == self.item_at(q));
                }
            }
        }
        lemma_same_space(after@, expected);
    }

    /// The path goes on through the key at `j`: a function there blocks it,
    /// a module there takes the binding, and the rest of this node stays.
    proof fn lemma_bound_below(
        self,
        after: ModuleNode,
        j: int,
        path: Seq<Seq<char>>,
        name: Seq<char>,
        id: FunctionId,
        placed: bool,
    )
        requires
            path.len() > 0,
            self.position(path[0]) == Some(j),
            0 <= j < self.bindings.len(),
            after.bindings@.len() == self.bindings@.len(),
            forall|k: int|
                0 <= k < self.bindings.len() && k != j ==> after.bindings@[k] == self.bindings@[k],
            after.bindings@[j].name == self.bindings@[j].name,
            match self.bindings@[j].entry {
                Entry::Function(_) => !placed && after.bindings@[j].entry == self.bindings@[j].entry,
                Entry::Module(child) => {
                    &&& after.bindings@[j].entry is Module
                    &&& child.wf() ==> after.bindings@[j].entry->Module_0.wf()
                    &&& placed == !is_blocked(child@, path.skip(1), name, id)
                    &&& placed ==> after.bindings@[j].entry->Module_0@ == with_binding(
                        child@,
                        path.skip(1),
                        name,
                        id,
                    )
                    &&& !placed ==> after.bindings@[j].entry->Module_0@ == child@
                },
            },
        ensures
            self.wf() ==> after.wf(),
            placed == !is_blocked(self@, path, name, id),
            placed ==> after@ == with_binding(self@, path, name, id),
            !placed ==> after@ == self@,
    {
        let head = path[0];
        if self.wf() {
            assert forall|i: int| 0 <= i < after.bindings.len() implies is_segment(
                (#[trigger] after.bindings[i]).name@,
            ) by {
                assert(after.bindings[i].name == self.bindings[i].name);
            }
            assert forall|i: int, k: int| 0 <= i < k < after.bindings.len() implies (
            #[trigger] after.bindings[i]).name@ != (#[trigger] after.bindings[k]).name@ by {
                assert(after.bindings[i].name == self.bindings[i].name);
                assert(after.bindings[k].name == self.bindings[k].name);
            }
            assert forall|i: int| 0 <= i < after.bindings.len() implies match (
            #[trigger] after.bindings[i]).entry {
                Entry::Function(_) => true,
                Entry::Module(below) => below.wf(),
            } by {
                if i != j {
                    assert(after.bindings[i] == self.bindings[i]);
                }
            }
            assert(after.wf());
        }
        // Nothing but what lies below the key at `j` can have changed.
        assert forall|q: Seq<Seq<char>>| q.len() > 0 && q[0] != head implies after.item_at(q)
            == self.item_at(q) by {
            lemma_find_same_keys(self.bindings@, after.bindings@, q[0], 0);
            if self.position(q[0]) is Some {
                lemma_find_in_range(self.bindings@, q[0], 0);
                let k = self.position(q[0])->0;
                assert(k != j) by {
                    lemma_find_in_range(self.bindings@, head, 0);
                }
                assert(after.bindings@[k] == self.bindings@[k]);
            }
        }
        lemma_find_same_keys(self.bindings@, after.bindings@, head, 0);
        assert(after.position(head) == Some(j));
        match self.bindings@[j].entry {
            Entry::Function(found) => {
                assert(path.take(1)[0] == head);
                assert(path.take(1).len() == 1);
                assert(self.item_at(path.take(1)) == Some(Item::Function(found)));
                assert(self@.dom().contains(path.take(1)) && self@[path.take(1)] is Function);
                assert(is_blocked(self@, path, name, id));
                assert forall|q: Seq<Seq<char>>| after.item_at(q) == self@.get(q) by {
                    if q.len() > 0 && q[0] == head {
                        assert(after.item_at(q) == self.item_at(q));
                    }
                }
                lemma_same_space(after@, self@);
            },
            Entry::Module(child) => {
                let below = after.bindings@[j].entry->Module_0;
                assert forall|q: Seq<Seq<char>>| q.len() > 0 && q[0] == head implies self.item_at(q)
                    == child.item_at(q.skip(1)) && after.item_at(q) == below.item_at(q.skip(1)) by {}
                self.lemma_blocked_below(child, path, name, id);
                if placed {
                    let expected = with_binding(self@, path, name, id);
                    assert forall|q: Seq<Seq<char>>| after.item_at(q) == expected.get(q) by {
                        if q.len() == 0 {
                            assert(q.is_prefix_of(path));
                        } else if q[0] == head {
                            lemma_step_down(q, path, name);
                            below.lemma_view_at(q.skip(1));
                            child.lemma_view_at(q.skip(1));
                        } else {
                            assert(q != path.push(name)) by {
                                assert(path.push(name)[0] == head);
                            }
                            assert(!q.is_prefix_of(path)) by {
                                if q.is_prefix_of(path) {
                                    assert(q[0] == path.subrange(0, q.len() as int)[0]);
                                }
                            }
                        }
                    }
                    lemma_same_space(after@, expected);
                } else {
                    assert forall|q: Seq<Seq<char>>| after.item_at(q) == self@.get(q) by {
                        if q.len() > 0 && q[0] == head {
                            below.lemma_view_at(q.skip(1));
                            child.lemma_view_at(q.skip(1));
                        }
                    }
                    lemma_same_space(after@, self@);
                }
            },
        }
    }

    /// Seen from a node, a path through one of its child modules is blocked
    /// exactly when its rest is blocked seen from that child.
    proof fn lemma_blocked_below(
        self,
        child: ModuleNode,
        path: Seq<Seq<char>>,
        name: Seq<char>,
        id: FunctionId,
    )
        requires
            path.len() > 0,
            forall|q: Seq<Seq<char>>|
                q.len() > 0 && q[0] == path[0] ==> #[trigger] self.item_at(q) == child.item_at(
                    q.skip(1),
                ),
        ensures
            is_blocked(self@, path, name, id) == is_blocked(child@, path.skip(1), name, id),
    {
        let rest = path.skip(1);
        let target = path.push(name);
        assert(target[0] == path[0]);
        assert(target.skip(1) =~= rest.push(name));
        assert(self.item_at(target) == child.item_at(rest.push(name)));
        if is_blocked(child@, rest, name, id) {
            if exists|k: int|
                1 <= k <= rest.len() && child@.dom().contains(#[trigger] rest.take(k))
                    && child@[rest.take(k)] is Function {
                let k = choose|k: int|
                    1 <= k <= rest.len() && child@.dom().contains(#[trigger] rest.take(k))
                        && child@[rest.take(k)] is Function;
                let longer = path.take(k + 1);
                assert(longer[0] == path[0]);
                assert(longer.skip(1) =~= rest.take(k));
                assert(self.item_at(longer) == child.item_at(rest.take(k)));
                assert(self@.dom().contains(path.take(k + 1)));
                assert(self@[path.take(k + 1)] is Function);
            }
            assert(is_blocked(self@, path, name, id));
        }
        if is_blocked(self@, path, name, id) {
            if exists|k: int|
                1 <= k <= path.len() && self@.dom().contains(#[trigger] path.take(k))
                    && self@[path.take(k)] is Function {
                let k = choose|k: int|
                    1 <= k <= path.len() && self@.dom().contains(#[trigger] path.take(k))
                        && self@[path.take(k)] is Function;
                let found = path.take(k);
                assert(found[0] == path[0]);
                assert(self.item_at(found) == child.item_at(found.skip(1)));
                if k == 1 {
                    assert(found.skip(1).len() == 0);
                } else {
                    assert(found.skip(1) =~= rest.take(k - 1));
                    assert(child@.dom().contains(rest.take(k - 1)));
                    assert(child@[rest.take(k - 1)] is Function);
                }
            }
            assert(is_blocked(child@, rest, name, id));
        }
    }
}

/// Two namespaces that answer every query alike are one namespace.
proof fn lemma_same_space(a: Namespace, b: Namespace)
    requires
        forall|q: Seq<Seq<char>>| a.get(q) == b.get(q),
    ensures
        a == b,
{
    assert forall|q: Seq<Seq<char>>| a.dom().contains(q) == b.dom().contains(q) by {
        assert(a.get(q) == b.get(q));
    }
    assert forall|q: Seq<Seq<char>>| a.dom().contains(q) implies a[q] == b[q] by {
        assert(a.get(q) == b.get(q));
    }
    assert(a =~= b);
}

} // verus!
