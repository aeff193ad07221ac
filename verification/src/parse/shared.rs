//! Shared example groups and inheritable test types, collected from
//! source files so that inclusions and base classes can be resolved.
use super::registry::{contains_str, AstKindsDef, FrameworkDef, InheritanceDef, SharedDef, SharedDefinitionDef};
use super::engine::{
    child_of_kind, extract_method_name, extract_name, find_arguments, find_block, kind_in,
    after_last, detected_refs, language_for_framework, parsed_with, last_segment, node_text, parse_children,
    push_call_refs, push_superclass_refs, views, block_of, method_name_of, name_of, child_of_kind_spec, kind_among,
    forest_rel, Ctx,
};
use super::syntax::{children_of, field_child, first_where, grammar_loads, grammar_of, kind_of, lemma_first_where_step, opt_text, parse_source, text_of, SyntaxTree};
use super::{
    copy_forest, copy_node, lemma_same_forest_concat, lemma_same_forest_refl, lemma_same_forest_trans,
    lemma_same_forest_well_formed, lemma_same_node_refl, same_forest, same_node, well_formed_forest,
    SpecNode,
};
use crate::text::{chars_of, owned, str_eq, string_of};
use vstd::prelude::*;

verus! {

/// Named shared example groups, named test types with their specs, and
/// the types each type inherits from. Each name occurs at most once in
/// each list.
#[derive(Debug)]
pub struct SharedExampleRegistry {
    definitions: Vec<(String, Vec<SpecNode>)>,
    types: Vec<(String, Vec<SpecNode>)>,
    type_refs: Vec<(String, Vec<String>)>,
}

/// No name occurs twice.
pub open spec fn distinct_keys<V>(s: Seq<(String, V)>) -> bool {
    forall|i: int, j: int| 0 <= i < j < s.len() ==> s[i].0@ != s[j].0@
}

/// The association list as a map from names to values.
pub open spec fn as_map<V>(s: Seq<(String, V)>) -> Map<Seq<char>, V>
    decreases s.len(),
{
    if s.len() == 0 {
        Map::empty()
    } else {
        as_map(s.drop_last()).insert(s.last().0@, s.last().1)
    }
}

/// Position of `name` in an association list.
fn find_key<V>(s: &Vec<(String, V)>, name: &str) -> (r: Option<usize>)
    ensures
        match r {
            Some(i) => i < s@.len() && s@[i as int].0@ == name@,
            None => forall|i: int| 0 <= i < s@.len() ==> (#[trigger] s@[i]).0@ != name@,
        },
{
    let mut i: usize = 0;
    while i < s.len()
        invariant
            i <= s.len(),
            forall|k: int| 0 <= k < i ==> (#[trigger] s@[k]).0@ != name@,
        decreases s.len() - i,
    {
        if str_eq(s[i].0.as_str(), name) {
            return Some(i);
        }
        i += 1;
    }
    None
}

/// A map of a list with distinct names holds each name at its value.
proof fn lemma_as_map_index<V>(s: Seq<(String, V)>, i: int)
    requires
        distinct_keys(s),
        0 <= i < s.len(),
    ensures
        as_map(s).contains_key(s[i].0@),
        as_map(s)[s[i].0@] == s[i].1,
    decreases s.len(),
{
    if i < s.len() - 1 {
        lemma_as_map_index(s.drop_last(), i);
    }
}

/// A name absent from the list is absent from its map.
proof fn lemma_as_map_absent<V>(s: Seq<(String, V)>, name: Seq<char>)
    requires
        forall|i: int| 0 <= i < s.len() ==> (#[trigger] s[i]).0@ != name,
    ensures
        !as_map(s).contains_key(name),
    decreases s.len(),
{
    if s.len() > 0 {
        lemma_as_map_absent(s.drop_last(), name);
    }
}

/// The map of a list has a finite domain, with one name per distinct name
/// of the list; with distinct names, as many as the list is long.
proof fn lemma_as_map_len<V>(s: Seq<(String, V)>)
    ensures
        as_map(s).dom().finite(),
        (s.len() == 0) == (as_map(s).dom().len() == 0),
        distinct_keys(s) ==> as_map(s).dom().len() == s.len(),
    decreases s.len(),
{
    if s.len() > 0 {
        let p = s.drop_last();
        lemma_as_map_len(p);
        assert(as_map(s).dom() =~= as_map(p).dom().insert(s.last().0@));
        assert(as_map(s).dom().contains(s.last().0@));
        if distinct_keys(s) {
            assert(distinct_keys(p));
            assert forall|i: int| 0 <= i < p.len() implies (#[trigger] p[i]).0@ != s.last().0@ by {
                assert(s[i] == p[i]);
            }
            lemma_as_map_absent(p, s.last().0@);
        }
    }
}

/// Replacing the entry at a position of a list with distinct names, by one
/// of the same name, updates the map there.
proof fn lemma_as_map_update<V>(s: Seq<(String, V)>, i: int, e: (String, V))
    requires
        distinct_keys(s),
        0 <= i < s.len(),
        e.0@ == s[i].0@,
    ensures
        distinct_keys(s.update(i, e)),
        as_map(s.update(i, e)) == as_map(s).insert(e.0@, e.1),
    decreases s.len(),
{
    let t = s.update(i, e);
    if i == s.len() - 1 {
        assert(t.drop_last() =~= s.drop_last());
        assert(as_map(t) =~= as_map(s).insert(e.0@, e.1));
    } else {
        lemma_as_map_update(s.drop_last(), i, e);
        assert(t.drop_last() =~= s.drop_last().update(i, e));
        assert(as_map(t) =~= as_map(s).insert(e.0@, e.1));
    }
}

/// Resolving the type `name` after the types `visited`: the names visited
/// afterwards, and the specs it gives. A type visited already gives
/// nothing; else it is marked visited and gives the specs of the types it
/// inherits from, in order (while `fuel` lasts), then its own.
pub open spec fn resolved(reg: SharedExampleRegistry, name: Seq<char>, visited: Seq<Seq<char>>, fuel: nat) -> (Seq<Seq<char>>, Seq<SpecNode>)
    decreases fuel, 0nat, 0nat,
{
    if visited.contains(name) {
        (visited, seq![])
    } else {
        let v1 = visited.push(name);
        let inherited = if reg.refs_map().contains_key(name) && fuel > 0 {
            resolved_list(reg, views(reg.refs_map()[name]@), v1, (fuel - 1) as nat)
        } else {
            (v1, seq![])
        };
        let own = if reg.types_map().contains_key(name) {
            reg.types_map()[name]@
        } else {
            seq![]
        };
        (inherited.0, inherited.1 + own)
    }
}

/// Resolving the types `names` one after the other, each after those
/// visited before it.
pub open spec fn resolved_list(reg: SharedExampleRegistry, names: Seq<Seq<char>>, visited: Seq<Seq<char>>, fuel: nat) -> (Seq<Seq<char>>, Seq<SpecNode>)
    decreases fuel, 1nat, names.len(),
{
    if names.len() == 0 {
        (visited, seq![])
    } else {
        let front = resolved_list(reg, names.drop_last(), visited, fuel);
        let last = resolved(reg, names.last(), front.0, fuel);
        (last.0, front.1 + last.1)
    }
}

/// The inheriting types among `visited`.
pub open spec fn inheriting_among(reg: SharedExampleRegistry, visited: Seq<Seq<char>>) -> Set<Seq<char>> {
    reg.refs_map().dom().intersect(Set::new(|k: Seq<char>| visited.contains(k)))
}

/// The depth left, with the inheriting types visited already, covers every
/// inheriting type.
pub open spec fn depth_suffices(reg: SharedExampleRegistry, visited: Seq<Seq<char>>, fuel: nat) -> bool {
    fuel + inheriting_among(reg, visited).len() >= reg.refs_map().dom().len()
}

/// Resolving a type keeps every visited name visited.
proof fn lemma_resolved_keeps_visited(reg: SharedExampleRegistry, name: Seq<char>, visited: Seq<Seq<char>>, fuel: nat)
    ensures
        forall|x: Seq<char>| visited.contains(x) ==> #[trigger] resolved(reg, name, visited, fuel).0.contains(x),
    decreases fuel, 0nat, 0nat,
{
    if !visited.contains(name) {
        let v1 = visited.push(name);
        assert forall|x: Seq<char>| visited.contains(x) implies v1.contains(x) by {
            let k = choose|k: int| 0 <= k < visited.len() && visited[k] == x;
            assert(v1[k] == x);
        }
        let names = views(reg.refs_map()[name]@);
        if reg.refs_map().contains_key(name) && fuel > 0 {
            lemma_resolved_list_keeps_visited(reg, names, v1, (fuel - 1) as nat);
        }
        assert forall|x: Seq<char>| visited.contains(x) implies #[trigger] resolved(reg, name, visited, fuel).0.contains(x) by {
            assert(v1.contains(x));
            if reg.refs_map().contains_key(name) && fuel > 0 {
                assert(resolved_list(reg, names, v1, (fuel - 1) as nat).0.contains(x));
            }
        }
    }
}

/// Resolving types one after the other keeps every visited name visited.
proof fn lemma_resolved_list_keeps_visited(reg: SharedExampleRegistry, names: Seq<Seq<char>>, visited: Seq<Seq<char>>, fuel: nat)
    ensures
        forall|x: Seq<char>| visited.contains(x) ==> #[trigger] resolved_list(reg, names, visited, fuel).0.contains(x),
    decreases fuel, 1nat, names.len(),
{
    if names.len() > 0 {
        lemma_resolved_list_keeps_visited(reg, names.drop_last(), visited, fuel);
        let front = resolved_list(reg, names.drop_last(), visited, fuel);
        lemma_resolved_keeps_visited(reg, names.last(), front.0, fuel);
        assert forall|x: Seq<char>| visited.contains(x) implies #[trigger] resolved_list(reg, names, visited, fuel).0.contains(x) by {
            assert(front.0.contains(x));
            assert(resolved(reg, names.last(), front.0, fuel).0.contains(x));
        }
    }
}

/// More visited names leave at least as many inheriting types visited.
proof fn lemma_inheriting_grows(reg: SharedExampleRegistry, a: Seq<Seq<char>>, b: Seq<Seq<char>>)
    requires
        reg.wf(),
        forall|x: Seq<char>| a.contains(x) ==> #[trigger] b.contains(x),
    ensures
        inheriting_among(reg, a).len() <= inheriting_among(reg, b).len(),
{
    lemma_as_map_len(reg.type_refs@);
    vstd::set_lib::lemma_len_intersect(reg.refs_map().dom(), Set::new(|k: Seq<char>| b.contains(k)));
    vstd::set_lib::lemma_len_subset(inheriting_among(reg, a), inheriting_among(reg, b));
}

/// With depth enough, one more level of depth changes nothing.
proof fn lemma_resolved_fuel(reg: SharedExampleRegistry, name: Seq<char>, visited: Seq<Seq<char>>, fuel: nat)
    requires
        reg.wf(),
        depth_suffices(reg, visited, fuel),
    ensures
        resolved(reg, name, visited, fuel) == resolved(reg, name, visited, fuel + 1),
    decreases fuel, 0nat, 0nat,
{
    if !visited.contains(name) && reg.refs_map().contains_key(name) {
        let v1 = visited.push(name);
        let dom = reg.refs_map().dom();
        lemma_as_map_len(reg.type_refs@);
        let before = inheriting_among(reg, visited);
        let after = inheriting_among(reg, v1);
        vstd::set_lib::lemma_len_intersect(dom, Set::new(|k: Seq<char>| visited.contains(k)));
        assert(!before.contains(name));
        assert forall|x: Seq<char>| v1.contains(x) <==> (visited.contains(x) || x == name) by {
            if v1.contains(x) {
                let k = choose|k: int| 0 <= k < v1.len() && v1[k] == x;
                if k < visited.len() {
                    assert(visited[k] == x);
                }
            }
            if visited.contains(x) {
                let k = choose|k: int| 0 <= k < visited.len() && visited[k] == x;
                assert(v1[k] == x);
            }
            if x == name {
                assert(v1[visited.len() as int] == name);
            }
        }
        assert(after =~= before.insert(name));
        if fuel == 0 {
            vstd::set_lib::lemma_len_subset(before, dom);
            vstd::set_lib::lemma_subset_equality(before, dom);
            assert(false);
        }
        lemma_resolved_list_fuel(reg, views(reg.refs_map()[name]@), v1, (fuel - 1) as nat);
    }
}

/// With depth enough, one more level of depth changes nothing, for types
/// resolved one after the other.
proof fn lemma_resolved_list_fuel(reg: SharedExampleRegistry, names: Seq<Seq<char>>, visited: Seq<Seq<char>>, fuel: nat)
    requires
        reg.wf(),
        depth_suffices(reg, visited, fuel),
    ensures
        resolved_list(reg, names, visited, fuel) == resolved_list(reg, names, visited, fuel + 1),
    decreases fuel, 1nat, names.len(),
{
    if names.len() > 0 {
        lemma_resolved_list_fuel(reg, names.drop_last(), visited, fuel);
        let front = resolved_list(reg, names.drop_last(), visited, fuel);
        lemma_resolved_list_keeps_visited(reg, names.drop_last(), visited, fuel);
        lemma_inheriting_grows(reg, visited, front.0);
        lemma_resolved_fuel(reg, names.last(), front.0, fuel);
    }
}

/// Resolving a type never runs out of depth: with as many levels as there
/// are inheriting types, any greater depth gives the same names visited
/// and the same specs.
pub proof fn lemma_resolve_depth_suffices(reg: SharedExampleRegistry, name: Seq<char>, extra: nat)
    requires
        reg.wf(),
    ensures
        resolved(reg, name, seq![], reg.refs_map().dom().len()) == resolved(reg, name, seq![], reg.refs_map().dom().len() + extra),
    decreases extra,
{
    if extra > 0 {
        lemma_resolve_depth_suffices(reg, name, (extra - 1) as nat);
        lemma_resolved_fuel(reg, name, seq![], reg.refs_map().dom().len() + (extra - 1) as nat);
    }
}

impl SharedExampleRegistry {
    /// Names are unique in each list.
    pub closed spec fn wf(&self) -> bool {
        &&& distinct_keys(self.definitions@)
        &&& distinct_keys(self.types@)
        &&& distinct_keys(self.type_refs@)
    }

    /// The shared example groups by name.
    pub closed spec fn definitions_map(&self) -> Map<Seq<char>, Vec<SpecNode>> {
        as_map(self.definitions@)
    }

    /// The test types by name.
    pub closed spec fn types_map(&self) -> Map<Seq<char>, Vec<SpecNode>> {
        as_map(self.types@)
    }

    /// The inherited type names of each type.
    pub closed spec fn refs_map(&self) -> Map<Seq<char>, Vec<String>> {
        as_map(self.type_refs@)
    }

    /// Every shared example group and every test type holds a well-formed
    /// forest.
    pub open spec fn contents_well_formed(&self) -> bool {
        &&& forall|k: Seq<char>| #[trigger] self.definitions_map().contains_key(k) ==> well_formed_forest(self.definitions_map()[k]@)
        &&& forall|k: Seq<char>| #[trigger] self.types_map().contains_key(k) ==> well_formed_forest(self.types_map()[k]@)
    }

    /// The registry holds finitely many entries: each of its maps has a
    /// finite domain.
    pub proof fn lemma_maps_finite(&self)
        ensures
            self.definitions_map().dom().finite(),
            self.types_map().dom().finite(),
            self.refs_map().dom().finite(),
    {
        lemma_as_map_len(self.definitions@);
        lemma_as_map_len(self.types@);
        lemma_as_map_len(self.type_refs@);
    }

    /// An empty registry.
    pub fn new() -> (r: SharedExampleRegistry)
        ensures
            r.wf(),
            r.definitions_map() == Map::<Seq<char>, Vec<SpecNode>>::empty(),
            r.types_map() == Map::<Seq<char>, Vec<SpecNode>>::empty(),
            r.refs_map() == Map::<Seq<char>, Vec<String>>::empty(),
            r.contents_well_formed(),
    {
        SharedExampleRegistry { definitions: Vec::new(), types: Vec::new(), type_refs: Vec::new() }
    }

    /// Registers a shared example group, replacing one of the same name.
    pub fn register(&mut self, name: String, specs: Vec<SpecNode>)
        requires
            old(self).wf(),
        ensures
            final(self).wf(),
            final(self).definitions_map() == old(self).definitions_map().insert(name@, specs),
            final(self).types_map() == old(self).types_map(),
            final(self).refs_map() == old(self).refs_map(),
            old(self).contents_well_formed() && well_formed_forest(specs@) ==> final(self).contents_well_formed(),
    {
        let ghost key = name@;
        let ghost ok = self.contents_well_formed() && well_formed_forest(specs@);
        let ghost d0 = self.definitions_map();
        match find_key(&self.definitions, name.as_str()) {
            Some(i) => {
                let ghost s0 = self.definitions@;
                let entry = (name, specs);
                proof {
                    lemma_as_map_update(s0, i as int, entry);
                }
                self.definitions[i] = entry;
                assert(self.definitions@ =~= s0.update(i as int, entry));
            },
            None => {
                let ghost s0 = self.definitions@;
                proof {
                    lemma_as_map_absent(s0, name@);
                }
                self.definitions.push((name, specs));
                assert(self.definitions@.drop_last() =~= s0);
            },
        }
        proof {
            if ok {
                assert(self.types_map() == old(self).types_map());
                assert(self.definitions_map() == d0.insert(key, specs));
                assert forall|k: Seq<char>| #[trigger] self.definitions_map().contains_key(k) implies well_formed_forest(
                    self.definitions_map()[k]@,
                ) by {
                    if k != key {
                        assert(d0.contains_key(k));
                    }
                }
            }
        }
    }

    /// Registers a test type's own specs, unless the type is known already.
    pub fn register_type(&mut self, name: String, specs: Vec<SpecNode>)
        requires
            old(self).wf(),
        ensures
            final(self).wf(),
            final(self).types_map() == if old(self).types_map().contains_key(name@) {
                old(self).types_map()
            } else {
                old(self).types_map().insert(name@, specs)
            },
            final(self).definitions_map() == old(self).definitions_map(),
            final(self).refs_map() == old(self).refs_map(),
            old(self).contents_well_formed() && well_formed_forest(specs@) ==> final(self).contents_well_formed(),
    {
        match find_key(&self.types, name.as_str()) {
            Some(i) => {
                proof {
                    lemma_as_map_index(self.types@, i as int);
                }
            },
            None => {
                let ghost s0 = self.types@;
                proof {
                    lemma_as_map_absent(s0, name@);
                }
                self.types.push((name, specs));
                assert(self.types@.drop_last() =~= s0);
            },
        }
    }

    /// Records the types a type inherits from, unless already recorded.
    pub fn set_type_refs(&mut self, name: String, refs: Vec<String>)
        requires
            old(self).wf(),
        ensures
            final(self).wf(),
            final(self).refs_map() == if old(self).refs_map().contains_key(name@) {
                old(self).refs_map()
            } else {
                old(self).refs_map().insert(name@, refs)
            },
            final(self).definitions_map() == old(self).definitions_map(),
            final(self).types_map() == old(self).types_map(),
    {
        match find_key(&self.type_refs, name.as_str()) {
            Some(i) => {
                proof {
                    lemma_as_map_index(self.type_refs@, i as int);
                }
            },
            None => {
                let ghost s0 = self.type_refs@;
                proof {
                    lemma_as_map_absent(s0, name@);
                }
                self.type_refs.push((name, refs));
                assert(self.type_refs@.drop_last() =~= s0);
            },
        }
    }

    /// The specs of the shared example group `name`.
    pub fn get(&self, name: &str) -> (r: Option<&[SpecNode]>)
        requires
            self.wf(),
        ensures
            match r {
                Some(v) => self.definitions_map().contains_key(name@) && v@ == self.definitions_map()[name@]@,
                None => !self.definitions_map().contains_key(name@),
            },
    {
        match find_key(&self.definitions, name) {
            Some(i) => {
                proof {
                    lemma_as_map_index(self.definitions@, i as int);
                }
                Some(self.definitions[i].1.as_slice())
            },
            None => {
                proof {
                    lemma_as_map_absent(self.definitions@, name@);
                }
                None
            },
        }
    }

    /// The own specs of the test type `name`.
    pub fn get_type(&self, name: &str) -> (r: Option<&[SpecNode]>)
        requires
            self.wf(),
        ensures
            match r {
                Some(v) => self.types_map().contains_key(name@) && v@ == self.types_map()[name@]@,
                None => !self.types_map().contains_key(name@),
            },
    {
        match find_key(&self.types, name) {
            Some(i) => {
                proof {
                    lemma_as_map_index(self.types@, i as int);
                }
                Some(self.types[i].1.as_slice())
            },
            None => {
                proof {
                    lemma_as_map_absent(self.types@, name@);
                }
                None
            },
        }
    }

    /// The inherited type names recorded for `name`.
    fn get_refs(&self, name: &str) -> (r: Option<&Vec<String>>)
        requires
            self.wf(),
        ensures
            match r {
                Some(v) => self.refs_map().contains_key(name@) && *v == self.refs_map()[name@],
                None => !self.refs_map().contains_key(name@),
            },
    {
        match find_key(&self.type_refs, name) {
            Some(i) => {
                proof {
                    lemma_as_map_index(self.type_refs@, i as int);
                }
                Some(&self.type_refs[i].1)
            },
            None => {
                proof {
                    lemma_as_map_absent(self.type_refs@, name@);
                }
                None
            },
        }
    }

    /// All specs of the type `name`: first those of the types it inherits
    /// from (depth first, each type once), then its own.
    pub fn resolve_type(&self, name: &str) -> (r: Vec<SpecNode>)
        requires
            self.wf(),
        ensures
            same_forest(r@, resolved(*self, name@, seq![], self.refs_map().dom().len()).1),
            self.contents_well_formed() ==> well_formed_forest(r@),
    {
        let mut visited: Vec<String> = Vec::new();
        let mut specs: Vec<SpecNode> = Vec::new();
        let fuel = self.type_refs.len();
        proof {
            lemma_as_map_len(self.type_refs@);
            assert(views(visited@) =~= seq![]);
        }
        self.resolve_type_inner(name, &mut visited, &mut specs, fuel);
        assert(seq![] + resolved(*self, name@, seq![], fuel as nat).1 =~= resolved(*self, name@, seq![], fuel as nat).1);
        specs
    }

    /// Depth-first collection of inherited specs; `fuel` bounds the depth
    /// by the number of types that inherit from others.
    fn resolve_type_inner(&self, name: &str, visited: &mut Vec<String>, out: &mut Vec<SpecNode>, fuel: usize)
        requires
            self.wf(),
        ensures
            views(final(visited)@) == resolved(*self, name@, views(old(visited)@), fuel as nat).0,
            same_forest(final(out)@, old(out)@ + resolved(*self, name@, views(old(visited)@), fuel as nat).1),
            (self.contents_well_formed() && well_formed_forest(old(out)@)) ==> well_formed_forest(final(out)@),
        decreases fuel,
    {
        let ghost ok = self.contents_well_formed() && well_formed_forest(out@);
        let ghost vis0 = views(visited@);
        let ghost out0 = out@;
        let ghost res = resolved(*self, name@, vis0, fuel as nat);
        if contains_str(visited, name) {
            proof {
                let k = choose|k: int| 0 <= k < visited@.len() && (#[trigger] visited@[k])@ == name@;
                assert(vis0[k] == name@);
                assert(out0 + res.1 =~= out0);
                lemma_same_forest_refl(out0);
            }
            return;
        }
        proof {
            assert forall|k: int| 0 <= k < vis0.len() implies vis0[k] != name@ by {
                assert(vis0[k] == visited@[k]@);
            }
        }
        visited.push(owned(name));
        let ghost v1 = vis0.push(name@);
        assert(views(visited@) =~= v1);
        let ghost has_refs = self.refs_map().contains_key(name@) && fuel > 0;
        let ghost inherited = if has_refs {
            resolved_list(*self, views(self.refs_map()[name@]@), v1, (fuel - 1) as nat)
        } else {
            (v1, seq![])
        };
        proof {
            assert(out0 + seq![] =~= out0);
            lemma_same_forest_refl(out0);
        }
        match self.get_refs(name) {
            Some(refs) => {
                if fuel > 0 {
                    let ghost names = views(refs@);
                    let mut i: usize = 0;
                    assert(names.subrange(0, 0) =~= seq![]);
                    while i < refs.len()
                        invariant
                            self.wf(),
                            fuel > 0,
                            i <= refs@.len(),
                            names == views(refs@),
                            *refs == self.refs_map()[name@],
                            self.refs_map().contains_key(name@),
                            views(visited@) == resolved_list(*self, names.subrange(0, i as int), v1, (fuel - 1) as nat).0,
                            same_forest(out@, out0 + resolved_list(*self, names.subrange(0, i as int), v1, (fuel - 1) as nat).1),
                            ok ==> self.contents_well_formed() && well_formed_forest(out@),
                        decreases refs@.len() - i,
                    {
                        let ghost mid = out@;
                        let ghost front = resolved_list(*self, names.subrange(0, i as int), v1, (fuel - 1) as nat);
                        self.resolve_type_inner(refs[i].as_str(), visited, out, fuel - 1);
                        proof {
                            let next = names.subrange(0, i + 1);
                            assert(next.drop_last() =~= names.subrange(0, i as int));
                            assert(next.last() == refs@[i as int]@);
                            let last = resolved(*self, refs@[i as int]@, front.0, (fuel - 1) as nat);
                            lemma_same_forest_refl(last.1);
                            lemma_same_forest_concat(mid, out0 + front.1, last.1, last.1);
                            assert(out0 + front.1 + last.1 =~= out0 + (front.1 + last.1));
                            lemma_same_forest_trans(out@, mid + last.1, out0 + (front.1 + last.1));
                        }
                        i += 1;
                    }
                    assert(names.subrange(0, refs@.len() as int) =~= names);
                }
            },
            None => {},
        }
        let ghost after = out@;
        assert(same_forest(after, out0 + inherited.1));
        assert(views(visited@) == inherited.0);
        match self.get_type(name) {
            Some(specs) => {
                let ghost o0 = out@;
                let mut copies = copy_forest(specs);
                let ghost c0 = copies@;
                out.append(&mut copies);
                proof {
                    assert forall|j: int| 0 <= j < out@.len() implies same_node(#[trigger] out@[j], (o0 + specs@)[j]) by {
                        if j < o0.len() {
                            lemma_same_node_refl(o0[j]);
                        } else {
                            assert(out@[j] == c0[j - o0.len()]);
                        }
                    }
                    if ok {
                        assert(well_formed_forest(o0 + specs@));
                        lemma_same_forest_well_formed(out@, o0 + specs@);
                    }
                    lemma_same_forest_refl(specs@);
                    lemma_same_forest_concat(after, out0 + inherited.1, specs@, specs@);
                    assert(out0 + inherited.1 + specs@ =~= out0 + (inherited.1 + specs@));
                    lemma_same_forest_trans(out@, after + specs@, out0 + (inherited.1 + specs@));
                }
            },
            None => {
                assert(inherited.1 + seq![] =~= inherited.1);
            },
        }
    }

    /// No shared example group and no test type is registered.
    pub fn is_empty(&self) -> (r: bool)
        ensures
            r == (self.definitions_map().dom().len() == 0 && self.types_map().dom().len() == 0),
    {
        proof {
            lemma_as_map_len(self.definitions@);
            lemma_as_map_len(self.types@);
        }
        self.definitions.len() == 0 && self.types.len() == 0
    }

    /// The number of shared example groups.
    pub fn len(&self) -> (r: usize)
        requires
            self.wf(),
        ensures
            r == self.definitions_map().dom().len(),
    {
        proof {
            lemma_as_map_len(self.definitions@);
        }
        self.definitions.len()
    }
}

/// The names a type is registered under: its full name, and the last
/// segment of a `::`-scoped name.
pub fn type_registration_names(full_name: &str) -> (r: Vec<String>)
    ensures
        r@.len() == if after_last(full_name@, "::"@) == full_name@ { 1int } else { 2int },
        r@[0]@ == full_name@,
        r@.len() == 2 ==> r@[1]@ == after_last(full_name@, "::"@),
{
    let mut names: Vec<String> = Vec::new();
    names.push(owned(full_name));
    let tail = last_segment(full_name, "::");
    if !str_eq(tail.as_str(), full_name) {
        names.push(tail);
    }
    names
}

/// The types a type declaration inherits from: the arguments of its
/// superclass list, or of `include`-like calls in its body.
fn collect_type_refs(t: &SyntaxTree, source: &str, node: usize, body: usize, inheritance: &InheritanceDef) -> (r: Vec<String>)
    ensures
        views(r@) == detected_refs(*t, source@, node, Some(body), inheritance.ref_detection@, false),
{
    let mut refs: Vec<String> = Vec::new();
    let dets = &inheritance.ref_detection;
    let mut d: usize = 0;
    assert(views(refs@) =~= detected_refs(*t, source@, node, Some(body), dets@.subrange(0, 0), false));
    while d < dets.len()
        invariant
            d <= dets@.len(),
            views(refs@) == detected_refs(*t, source@, node, Some(body), dets@.subrange(0, d as int), false),
        decreases dets@.len() - d,
    {
        let det = &dets[d];
        assert(dets@.subrange(0, d + 1).drop_last() =~= dets@.subrange(0, d as int));
        d += 1;
        if str_eq(det.strategy.as_str(), "superclass_args") {
            push_superclass_refs(&mut refs, t, source, node, det);
        } else if str_eq(det.strategy.as_str(), "method_call") {
            push_call_refs(&mut refs, t, source, body, det, false);
        } else {
            assert(views(refs@) =~= views(refs@) + Seq::<Seq<char>>::empty());
        }
    }
    assert(dets@.subrange(0, d as int) =~= dets@);
    refs
}

/// Children that name a type: of the name kind or its alternative.
pub open spec fn name_kind_pred(t: SyntaxTree, ast: AstKindsDef) -> spec_fn(usize) -> bool {
    |c: usize| (ast.name_child matches Some(k) && kind_of(t, c) == k@) || (ast.name_child_alt matches Some(k) && kind_of(t, c) == k@)
}

/// The name of a type declaration (its name field, else its first child of
/// a name kind) and its body (its body field, else its first child of the
/// body kind, else its `body` field), when the framework describes types
/// and all of these exist.
pub open spec fn type_decl_of(t: SyntaxTree, source: Seq<char>, node: usize, fw: FrameworkDef) -> Option<(Seq<char>, usize)> {
    match fw.ast_kinds {
        None => None,
        Some(ast) => {
            let by_field = match ast.name_field {
                Some(f) => field_child(t, node, f@),
                None => None,
            };
            let name_node = if by_field is Some { by_field } else { first_where(children_of(t, node), name_kind_pred(t, ast)) };
            let by_body = match ast.body_field {
                Some(f) => field_child(t, node, f@),
                None => None,
            };
            let body = if by_body is Some {
                by_body
            } else {
                match ast.body_child {
                    Some(k) => child_of_kind_spec(t, node, k@),
                    None => field_child(t, node, "body"@),
                }
            };
            match name_node {
                None => None,
                Some(nn) => match text_of(t, nn, source) {
                    None => None,
                    Some(name) => match body {
                        None => None,
                        Some(b) => Some((name, b)),
                    },
                },
            }
        },
    }
}

/// The inherited type names of a type declaration with body `body`.
pub open spec fn type_refs_of(t: SyntaxTree, source: Seq<char>, node: usize, body: usize, fw: FrameworkDef) -> Seq<Seq<char>> {
    match fw.inheritance {
        Some(inh) => if inh.enabled { detected_refs(t, source, node, Some(body), inh.ref_detection@, false) } else { seq![] },
        None => seq![],
    }
}

/// A type declaration's name, own specs and inherited type names; `None`
/// when it has neither specs nor inherited types.
fn extract_type_definition(t: &SyntaxTree, source: &str, node: usize, framework: &FrameworkDef) -> (r: Option<(String, Vec<SpecNode>, Vec<String>)>)
    ensures
        r matches Some(d) ==> well_formed_forest(d.1@),
        match r {
            Some(d) => type_decl_of(*t, source@, node, *framework) matches Some(x) && x.0 == d.0@
                && views(d.2@) == type_refs_of(*t, source@, node, x.1, *framework) && (d.1@.len() > 0 || d.2@.len() > 0),
            None => type_decl_of(*t, source@, node, *framework) matches Some(x) ==> type_refs_of(*t, source@, node, x.1, *framework).len() == 0,
        },
{
    let ast = framework.ast_kinds.as_ref()?;
    let by_field = match &ast.name_field {
        Some(f) => t.child_by_field(node, f.as_str()),
        None => None,
    };
    let name_node = match by_field {
        Some(n) => n,
        None => {
            let ghost cs = children_of(*t, node);
            let ghost p = name_kind_pred(*t, *ast);
            let cnt = t.child_count(node);
            let mut found: Option<usize> = None;
            let mut i: usize = 0;
            assert(cs.subrange(0, cs.len() as int) =~= cs);
            while i < cnt && found.is_none()
                invariant
                    cnt == super::syntax::children_of(*t, node).len(),
                    cs == children_of(*t, node),
                    p == name_kind_pred(*t, *ast),
                    i <= cnt,
                    found is None ==> first_where(cs, p) == first_where(cs.subrange(i as int, cs.len() as int), p),
                    found is Some ==> first_where(cs, p) == found,
                decreases cnt - i,
            {
                proof {
                    lemma_first_where_step(cs, p, i as int);
                }
                let ch = t.child(node, i);
                let a = match &ast.name_child {
                    Some(k) => t.kind_is(ch, k.as_str()),
                    None => false,
                };
                let b = match &ast.name_child_alt {
                    Some(k) => t.kind_is(ch, k.as_str()),
                    None => false,
                };
                if a || b {
                    found = Some(ch);
                }
                i += 1;
            }
            proof {
                if found is None {
                    assert(cs.subrange(i as int, cs.len() as int).len() == 0);
                }
            }
            found?
        },
    };
    let full_name = node_text(t, name_node, source)?;
    let by_body_field = match &ast.body_field {
        Some(f) => t.child_by_field(node, f.as_str()),
        None => None,
    };
    let body = match by_body_field {
        Some(b) => b,
        None => match &ast.body_child {
            Some(k) => child_of_kind(t, node, k.as_str())?,
            None => t.child_by_field(node, "body")?,
        },
    };
    let specs = parse_children(t, body, source, framework);
    let refs = match &framework.inheritance {
        Some(inh) => {
            if inh.enabled {
                collect_type_refs(t, source, node, body, inh)
            } else {
                Vec::new()
            }
        },
        None => Vec::new(),
    };
    if specs.len() == 0 && refs.len() == 0 {
        return None;
    }
    Some((full_name, specs, refs))
}

/// Copies of a list of strings.
fn copy_strings(v: &Vec<String>) -> (r: Vec<String>)
    ensures
        r@.len() == v@.len(),
        forall|k: int| 0 <= k < v@.len() ==> (#[trigger] r@[k])@ == v@[k]@,
{
    let mut r: Vec<String> = Vec::new();
    let mut i: usize = 0;
    while i < v.len()
        invariant
            i <= v@.len(),
            r@.len() == i,
            forall|k: int| 0 <= k < i ==> (#[trigger] r@[k])@ == v@[k]@,
        decreases v@.len() - i,
    {
        r.push(owned(v[i].as_str()));
        i += 1;
    }
    r
}

/// Node `c` declares a type with inherited types, and `name` is one of its
/// registration names.
pub open spec fn declares_with_refs(t: SyntaxTree, source: Seq<char>, c: usize, fw: FrameworkDef, name: Seq<char>) -> bool {
    &&& fw.inheritance matches Some(inh) && inh.enabled && kind_among(t, c, inh.type_node_kinds@)
    &&& type_decl_of(t, source, c, fw) matches Some(x) && type_refs_of(t, source, c, x.1, fw).len() > 0 && (name == x.0 || (
    after_last(x.0, "::"@) != x.0 && name == after_last(x.0, "::"@)))
}

/// Scanning child `c` with `fuel` levels left registers `name`: it declares
/// such a type, or one lies below it.
pub open spec fn wants_type(t: SyntaxTree, source: Seq<char>, c: usize, fw: FrameworkDef, fuel: nat, name: Seq<char>) -> bool {
    declares_with_refs(t, source, c, fw, name) || (fuel > 0 && typed_below(t, source, c, fw, (fuel - 1) as nat, name))
}

/// A type with inherited types is declared below `node` (within `fuel`
/// further levels) with `name` among its registration names.
pub open spec fn typed_below(t: SyntaxTree, source: Seq<char>, node: usize, fw: FrameworkDef, fuel: nat, name: Seq<char>) -> bool
    decreases fuel,
{
    exists|m: int|
        0 <= m < children_of(t, node).len() && (declares_with_refs(t, source, #[trigger] children_of(t, node)[m], fw, name) || (
        fuel > 0 && typed_below(t, source, children_of(t, node)[m], fw, (fuel - 1) as nat, name)))
}

/// Registers every type declaration below `node` that has specs or
/// inherited types, under each of its registration names.
fn scan_types(t: &SyntaxTree, source: &str, node: usize, framework: &FrameworkDef, registry: &mut SharedExampleRegistry, fuel: usize)
    requires
        old(registry).wf(),
    ensures
        final(registry).wf(),
        old(registry).contents_well_formed() ==> final(registry).contents_well_formed(),
        final(registry).definitions_map() == old(registry).definitions_map(),
        forall|k: Seq<char>| #[trigger] old(registry).types_map().contains_key(k) ==> final(registry).types_map().contains_key(k),
        forall|k: Seq<char>| #[trigger] old(registry).refs_map().contains_key(k) ==> final(registry).refs_map().contains_key(k),
        forall|name: Seq<char>|
            #[trigger] typed_below(*t, source@, node, *framework, fuel as nat, name) ==> final(registry).types_map().contains_key(name)
                && final(registry).refs_map().contains_key(name),
    decreases fuel,
{
    let inheritance = match &framework.inheritance {
        Some(i) => i,
        None => {
            proof {
                assert forall|name: Seq<char>| !typed_below(*t, source@, node, *framework, fuel as nat, name) by {
                    lemma_no_types(*t, source@, node, *framework, fuel as nat, name);
                }
            }
            return;
        },
    };
    if !inheritance.enabled || inheritance.type_node_kinds.len() == 0 {
        proof {
            assert forall|name: Seq<char>| !typed_below(*t, source@, node, *framework, fuel as nat, name) by {
                lemma_no_types(*t, source@, node, *framework, fuel as nat, name);
            }
        }
        return;
    }
    let cnt = t.child_count(node);
    let mut i: usize = 0;
    while i < cnt
        invariant
            registry.wf(),
            cnt == super::syntax::children_of(*t, node).len(),
            i <= cnt,
            old(registry).contents_well_formed() ==> registry.contents_well_formed(),
            framework.inheritance == Some(*inheritance),
            inheritance.enabled,
            registry.definitions_map() == old(registry).definitions_map(),
            forall|k: Seq<char>| #[trigger] old(registry).types_map().contains_key(k) ==> registry.types_map().contains_key(k),
            forall|k: Seq<char>| #[trigger] old(registry).refs_map().contains_key(k) ==> registry.refs_map().contains_key(k),
            forall|name: Seq<char>, m: int|
                0 <= m < i && #[trigger] wants_type(*t, source@, children_of(*t, node)[m], *framework, fuel as nat, name)
                    ==> registry.types_map().contains_key(name) && registry.refs_map().contains_key(name),
        decreases cnt - i,
    {
        let child = t.child(node, i);
        let ghost ci = i as int;
        let ghost st = registry.types_map();
        let ghost sr = registry.refs_map();
        assert(forall|name: Seq<char>, m: int|
            0 <= m < ci && #[trigger] wants_type(*t, source@, children_of(*t, node)[m], *framework, fuel as nat, name)
                ==> st.contains_key(name) && sr.contains_key(name));
        i += 1;
        if kind_in(t, child, &inheritance.type_node_kinds) {
            if let Some((name, specs, refs)) = extract_type_definition(t, source, child, framework) {
                let names = type_registration_names(name.as_str());
                let ghost before_types = registry.types_map();
                let ghost before_refs = registry.refs_map();
                let mut k: usize = 0;
                while k < names.len()
                    invariant
                        registry.wf(),
                        k <= names@.len(),
                        well_formed_forest(specs@),
                        old(registry).contents_well_formed() ==> registry.contents_well_formed(),
                        registry.definitions_map() == old(registry).definitions_map(),
                        forall|q: Seq<char>| #[trigger] old(registry).types_map().contains_key(q) ==> registry.types_map().contains_key(q),
                        forall|q: Seq<char>| #[trigger] old(registry).refs_map().contains_key(q) ==> registry.refs_map().contains_key(q),
                        forall|q: Seq<char>| #[trigger] before_types.contains_key(q) ==> registry.types_map().contains_key(q),
                        forall|q: Seq<char>| #[trigger] before_refs.contains_key(q) ==> registry.refs_map().contains_key(q),
                        forall|m: int| 0 <= m < k ==> registry.types_map().contains_key(#[trigger] names@[m]@),
                    decreases names@.len() - k,
                {
                    let copies = copy_forest(&specs);
                    proof {
                        lemma_same_forest_well_formed(copies@, specs@);
                    }
                    registry.register_type(owned(names[k].as_str()), copies);
                    k += 1;
                }
                k = 0;
                while k < names.len()
                    invariant
                        registry.wf(),
                        k <= names@.len(),
                        well_formed_forest(specs@),
                        old(registry).contents_well_formed() ==> registry.contents_well_formed(),
                        registry.definitions_map() == old(registry).definitions_map(),
                        forall|q: Seq<char>| #[trigger] old(registry).types_map().contains_key(q) ==> registry.types_map().contains_key(q),
                        forall|q: Seq<char>| #[trigger] old(registry).refs_map().contains_key(q) ==> registry.refs_map().contains_key(q),
                        forall|q: Seq<char>| #[trigger] before_types.contains_key(q) ==> registry.types_map().contains_key(q),
                        forall|q: Seq<char>| #[trigger] before_refs.contains_key(q) ==> registry.refs_map().contains_key(q),
                        forall|m: int| 0 <= m < names@.len() ==> registry.types_map().contains_key(#[trigger] names@[m]@),
                        forall|m: int| 0 <= m < k ==> registry.refs_map().contains_key(#[trigger] names@[m]@),
                    decreases names@.len() - k,
                {
                    registry.set_type_refs(owned(names[k].as_str()), copy_strings(&refs));
                    k += 1;
                }
                proof {
                    assert forall|nm: Seq<char>| declares_with_refs(*t, source@, child, *framework, nm) implies registry.types_map().contains_key(nm)
                        && registry.refs_map().contains_key(nm) by {
                        if nm == name@ {
                            assert(names@[0]@ == nm);
                        } else {
                            assert(names@.len() == 2);
                            assert(names@[1]@ == nm);
                        }
                    }
                }
            } else {
                assert(forall|nm: Seq<char>| !declares_with_refs(*t, source@, child, *framework, nm));
            }
        } else {
            assert(forall|nm: Seq<char>| !declares_with_refs(*t, source@, child, *framework, nm));
        }
        assert(forall|nm: Seq<char>| declares_with_refs(*t, source@, child, *framework, nm) ==> registry.types_map().contains_key(nm)
            && registry.refs_map().contains_key(nm));
        assert(forall|q: Seq<char>| #[trigger] st.contains_key(q) ==> registry.types_map().contains_key(q));
        assert(forall|q: Seq<char>| #[trigger] sr.contains_key(q) ==> registry.refs_map().contains_key(q));
        let ghost mt = registry.types_map();
        let ghost mr = registry.refs_map();
        if fuel > 0 {
            scan_types(t, source, child, framework, registry, fuel - 1);
        }
        assert(forall|q: Seq<char>| #[trigger] mt.contains_key(q) ==> registry.types_map().contains_key(q));
        assert(forall|q: Seq<char>| #[trigger] mr.contains_key(q) ==> registry.refs_map().contains_key(q));
        assert(child == children_of(*t, node)[ci]);
        proof {
            assert forall|name: Seq<char>, m: int|
                0 <= m < i && #[trigger] wants_type(*t, source@, children_of(*t, node)[m], *framework, fuel as nat, name)
                    implies registry.types_map().contains_key(name) && registry.refs_map().contains_key(name) by {
                if m < ci {
                    assert(st.contains_key(name) && sr.contains_key(name));
                    assert(mt.contains_key(name) && mr.contains_key(name));
                } else {
                    if declares_with_refs(*t, source@, child, *framework, name) {
                        assert(mt.contains_key(name) && mr.contains_key(name));
                    }
                }
            }
        }
    }
    proof {
        assert forall|name: Seq<char>| #[trigger] typed_below(*t, source@, node, *framework, fuel as nat, name) implies registry.types_map().contains_key(name)
            && registry.refs_map().contains_key(name) by {
            let m = choose|m: int|
                0 <= m < children_of(*t, node).len() && (declares_with_refs(*t, source@, #[trigger] children_of(*t, node)[m], *framework, name) || (
                fuel > 0 && typed_below(*t, source@, children_of(*t, node)[m], *framework, (fuel - 1) as nat, name)));
            assert(wants_type(*t, source@, children_of(*t, node)[m], *framework, fuel as nat, name));
        }
    }
}

/// Without inheritance, or without type kinds, no type is registered.
proof fn lemma_no_types(t: SyntaxTree, source: Seq<char>, node: usize, fw: FrameworkDef, fuel: nat, name: Seq<char>)
    requires
        !(fw.inheritance matches Some(inh) && inh.enabled && inh.type_node_kinds@.len() > 0),
    ensures
        !typed_below(t, source, node, fw, fuel, name),
    decreases fuel,
{
    assert forall|m: int| 0 <= m < children_of(t, node).len() implies !(declares_with_refs(t, source, #[trigger] children_of(t, node)[m], fw, name) || (
        fuel > 0 && typed_below(t, source, children_of(t, node)[m], fw, (fuel - 1) as nat, name))) by {
        if fuel > 0 {
            lemma_no_types(t, source, children_of(t, node)[m], fw, (fuel - 1) as nat, name);
        }
    }
}

/// The first definition description of the node's kind and method decides:
/// the definition's name and block, or none when either is missing.
pub open spec fn definition_match(t: SyntaxTree, source: Seq<char>, node: usize, m: Seq<char>, defs: Seq<SharedDefinitionDef>) -> Option<Option<(Seq<char>, usize)>>
    decreases defs.len(),
{
    if defs.len() == 0 {
        None
    } else {
        let d = defs[0];
        if kind_of(t, node) == d.ast_type@ && (exists|k: int| 0 <= k < d.method_names@.len() && (#[trigger] d.method_names@[k])@ == m) {
            Some(match name_of(t, node, source, d.name_source@, opt_text(d.name_source_type)) {
                None => None,
                Some(n) => match block_of(t, node) {
                    None => None,
                    Some(b) => Some((n, b)),
                },
            })
        } else {
            definition_match(t, source, node, m, defs.subrange(1, defs.len() as int))
        }
    }
}

/// The name and block of the shared example definition at `node`, if it
/// is one.
pub open spec fn definition_of(t: SyntaxTree, source: Seq<char>, node: usize, shared: SharedDef) -> Option<(Seq<char>, usize)> {
    match method_name_of(t, node, source, t.nodes@.len() as nat) {
        None => None,
        Some(m) => match definition_match(t, source, node, m, shared.definition@) {
            Some(x) => x,
            None => None,
        },
    }
}

/// A shared example definition: its name and the specs of its block.
fn try_match_definition(t: &SyntaxTree, source: &str, node: usize, framework: &FrameworkDef, shared: &SharedDef) -> (r: Option<(String, Vec<SpecNode>)>)
    ensures
        r matches Some(d) ==> well_formed_forest(d.1@),
        match r {
            Some(d) => definition_of(*t, source@, node, *shared) matches Some(x) && x.0 == d.0@ && forest_rel(
                (Ctx { tree: t, source, framework, shared: None }),
                x.1,
                t.nodes@.len() as nat,
                d.1@,
            ),
            None => definition_of(*t, source@, node, *shared) is None,
        },
{
    let method_name = extract_method_name(t, node, source)?;
    let defs = &shared.definition;
    let ghost all = defs@;
    let mut i: usize = 0;
    assert(all.subrange(0, all.len() as int) =~= all);
    while i < defs.len()
        invariant
            i <= defs@.len(),
            all == defs@,
            all == shared.definition@,
            method_name_of(*t, node, source@, t.nodes@.len() as nat) == Some(method_name@),
            definition_match(*t, source@, node, method_name@, all) == definition_match(*t, source@, node, method_name@, all.subrange(i as int, all.len() as int)),
        decreases defs@.len() - i,
    {
        let def = &defs[i];
        proof {
            let rr = all.subrange(i as int, all.len() as int);
            assert(rr.subrange(1, rr.len() as int) =~= all.subrange(i + 1, all.len() as int));
            assert(rr[0] == all[i as int]);
        }
        i += 1;
        if !t.kind_is(node, def.ast_type.as_str()) {
            continue;
        }
        if !contains_str(&def.method_names, method_name.as_str()) {
            continue;
        }
        let source_type = match &def.name_source_type {
            Some(x) => Some(x.as_str()),
            None => None,
        };
        let name = extract_name(t, node, source, def.name_source.as_str(), source_type)?;
        let block = find_block(t, node)?;
        let children = parse_children(t, block, source, framework);
        return Some((name, children));
    }
    assert(all.subrange(i as int, all.len() as int).len() == 0);
    None
}

/// Registers every shared example definition below `node`.
/// Node `c` defines the shared example group `name`, whose specs, read
/// from the definition's block, are `specs`.
pub open spec fn defines_as(t: SyntaxTree, source: &str, c: usize, shared: SharedDef, fw: &FrameworkDef, name: Seq<char>, specs: Seq<SpecNode>) -> bool {
    &&& defines_here(t, source@, c, shared)
    &&& definition_of(t, source@, c, shared) matches Some(d) && d.0 == name && forest_rel(
        (Ctx { tree: &t, source, framework: fw, shared: None }),
        d.1,
        t.nodes@.len() as nat,
        specs,
    )
}

/// Node `c` is a call that defines a shared example group.
pub open spec fn defines_here(t: SyntaxTree, source: Seq<char>, c: usize, shared: SharedDef) -> bool {
    (kind_of(t, c) == "call"@ || kind_of(t, c) == "call_expression"@) && definition_of(t, source, c, shared) is Some
}

/// A shared example group named `name` is defined below `node`: by a child
/// call, or (within `fuel` further levels) below a child that defines none.
pub open spec fn defined_below(t: SyntaxTree, source: Seq<char>, node: usize, shared: SharedDef, fuel: nat, name: Seq<char>) -> bool
    decreases fuel,
{
    exists|k: int|
        0 <= k < children_of(t, node).len() && ((defines_here(t, source, #[trigger] children_of(t, node)[k], shared)
            && definition_of(t, source, children_of(t, node)[k], shared).unwrap().0 == name) || (!defines_here(
            t,
            source,
            children_of(t, node)[k],
            shared,
        ) && fuel > 0 && defined_below(t, source, children_of(t, node)[k], shared, (fuel - 1) as nat, name)))
}

fn scan_node(t: &SyntaxTree, source: &str, node: usize, framework: &FrameworkDef, shared: &SharedDef, registry: &mut SharedExampleRegistry, fuel: usize)
    requires
        old(registry).wf(),
    ensures
        final(registry).wf(),
        old(registry).contents_well_formed() ==> final(registry).contents_well_formed(),
        forall|name: Seq<char>|
            #[trigger] final(registry).definitions_map().contains_key(name) <==> (old(registry).definitions_map().contains_key(name)
                || defined_below(*t, source@, node, *shared, fuel as nat, name)),
        forall|name: Seq<char>|
            #[trigger] final(registry).definitions_map().contains_key(name) ==> (old(registry).definitions_map().contains_key(name)
                && final(registry).definitions_map()[name] == old(registry).definitions_map()[name]) || exists|c: usize|
                #[trigger] defines_as(*t, source, c, *shared, framework, name, final(registry).definitions_map()[name]@),
        final(registry).types_map() == old(registry).types_map(),
        final(registry).refs_map() == old(registry).refs_map(),
    decreases fuel,
{
    let cnt = t.child_count(node);
    let mut i: usize = 0;
    while i < cnt
        invariant
            registry.wf(),
            cnt == super::syntax::children_of(*t, node).len(),
            i <= cnt,
            old(registry).contents_well_formed() ==> registry.contents_well_formed(),
            forall|name: Seq<char>|
                #[trigger] registry.definitions_map().contains_key(name) <==> (old(registry).definitions_map().contains_key(name)
                    || exists|k: int|
                    0 <= k < i && ((defines_here(*t, source@, #[trigger] children_of(*t, node)[k], *shared)
                        && definition_of(*t, source@, children_of(*t, node)[k], *shared).unwrap().0 == name) || (!defines_here(
                        *t,
                        source@,
                        children_of(*t, node)[k],
                        *shared,
                    ) && fuel > 0 && defined_below(*t, source@, children_of(*t, node)[k], *shared, (fuel - 1) as nat, name)))),
            forall|name: Seq<char>|
                #[trigger] registry.definitions_map().contains_key(name) ==> (old(registry).definitions_map().contains_key(name)
                    && registry.definitions_map()[name] == old(registry).definitions_map()[name]) || exists|c: usize|
                    #[trigger] defines_as(*t, source, c, *shared, framework, name, registry.definitions_map()[name]@),
            registry.types_map() == old(registry).types_map(),
            registry.refs_map() == old(registry).refs_map(),
        decreases cnt - i,
    {
        let child = t.child(node, i);
        let ghost before = registry.definitions_map();
        i += 1;
        if t.kind_is(child, "call") || t.kind_is(child, "call_expression") {
            if let Some((name, specs)) = try_match_definition(t, source, child, framework, shared) {
                let ghost nm = name@;
                let ghost sv = specs;
                let ghost d0 = registry.definitions_map();
                assert(defines_as(*t, source, child, *shared, framework, nm, sv@));
                registry.register(name, specs);
                assert forall|n: Seq<char>|
                    #[trigger] registry.definitions_map().contains_key(n) implies (old(registry).definitions_map().contains_key(n)
                        && registry.definitions_map()[n] == old(registry).definitions_map()[n]) || exists|c: usize|
                        #[trigger] defines_as(*t, source, c, *shared, framework, n, registry.definitions_map()[n]@) by {
                    if n == nm {
                        assert(registry.definitions_map()[n] == sv);
                    } else {
                        assert(d0.contains_key(n));
                        assert(registry.definitions_map()[n] == d0[n]);
                    }
                }
                assert forall|n: Seq<char>|
                    #[trigger] registry.definitions_map().contains_key(n) <==> (before.contains_key(n) || n == definition_of(*t, source@, child, *shared).unwrap().0) by {}
                continue;
            }
        }
        if fuel > 0 {
            scan_node(t, source, child, framework, shared, registry, fuel - 1);
        }
    }
}

/// `after` is `before` with what a scan of the arena `t` of `source`
/// registers: exactly the shared example groups defined in it (when the
/// framework has a definition form), each holding the specs of one of its
/// definitions, and at least each type declared in it with specs or
/// inherited types, with its inherited types.
pub open spec fn scanned_from(before: SharedExampleRegistry, after: SharedExampleRegistry, t: SyntaxTree, src: &str, fw: FrameworkDef) -> bool {
    let n = t.nodes@.len() as nat;
    let source = src@;
    &&& forall|name: Seq<char>|
        #[trigger] after.definitions_map().contains_key(name) <==> (before.definitions_map().contains_key(name) || (
        fw.shared matches Some(sh) && sh.definition@.len() > 0 && defined_below(t, source, 0, sh, n, name)))
    &&& forall|name: Seq<char>|
        #[trigger] after.definitions_map().contains_key(name) ==> (before.definitions_map().contains_key(name)
            && after.definitions_map()[name] == before.definitions_map()[name]) || (fw.shared matches Some(sh) && exists|c: usize|
            #[trigger] defines_as(t, src, c, sh, &fw, name, after.definitions_map()[name]@))
    &&& forall|name: Seq<char>| #[trigger] before.types_map().contains_key(name) ==> after.types_map().contains_key(name)
    &&& forall|name: Seq<char>| #[trigger] before.refs_map().contains_key(name) ==> after.refs_map().contains_key(name)
    &&& forall|name: Seq<char>|
        #[trigger] typed_below(t, source, 0, fw, n, name) ==> after.types_map().contains_key(name) && after.refs_map().contains_key(name)
}

/// Parses `source` and registers its shared example groups and its test
/// types, as the framework describes them.
pub fn scan_for_definitions(source: &str, framework: &FrameworkDef, registry: &mut SharedExampleRegistry)
    requires
        old(registry).wf(),
    ensures
        final(registry).wf(),
        old(registry).contents_well_formed() ==> final(registry).contents_well_formed(),
        scan_outcome(*old(registry), *final(registry), source@, *framework),
{
    let grammar = match language_for_framework(framework) {
        Some(g) => g,
        None => return,
    };
    let tree = match parse_source(grammar, source) {
        Some(t) => t,
        None => return,
    };
    let ghost before = *registry;
    assert(grammar_loads(grammar));
    if let Some(shared) = &framework.shared {
        if shared.definition.len() > 0 {
            scan_node(&tree, source, 0, framework, shared, registry, tree.nodes.len());
        }
    }
    scan_types(&tree, source, 0, framework, registry, tree.nodes.len());
    assert(parsed_with(tree, framework, source));
    assert(scanned_from(before, *registry, tree, source, *framework));
}

/// The two registries hold the same entries.
pub open spec fn same_maps(a: SharedExampleRegistry, b: SharedExampleRegistry) -> bool {
    &&& a.definitions_map() == b.definitions_map()
    &&& a.types_map() == b.types_map()
    &&& a.refs_map() == b.refs_map()
}

/// What scanning `text` with `fw` makes of `before`: nothing changes when
/// the framework's grammar is missing or refused; else `after` is `before`
/// with what a scan of the parse of `text` registers.
pub open spec fn scan_outcome(before: SharedExampleRegistry, after: SharedExampleRegistry, text: Seq<char>, fw: FrameworkDef) -> bool {
    if grammar_of(fw.language@) is None || !grammar_loads(grammar_of(fw.language@)->Some_0) {
        same_maps(before, after)
    } else {
        exists|t: SyntaxTree, src: &str|
            src@ == text && #[trigger] parsed_with(t, &fw, src) && scanned_from(before, after, t, src, fw)
    }
}

/// What is registered under a name is what a lookup of that name gives
/// back: after `register(name, specs)`, `get(name)` finds `specs`.
pub proof fn lemma_register_then_get(
    before: SharedExampleRegistry,
    after: SharedExampleRegistry,
    name: Seq<char>,
    specs: Vec<SpecNode>,
)
    requires
        after.definitions_map() == before.definitions_map().insert(name, specs),
    ensures
        after.definitions_map().contains_key(name),
        after.definitions_map()[name] == specs,
{
}

/// The first registration of a test type wins: registering a known type
/// again leaves its specs as they were.
pub proof fn lemma_first_type_registration_wins(
    before: SharedExampleRegistry,
    after: SharedExampleRegistry,
    name: Seq<char>,
    specs: Vec<SpecNode>,
)
    requires
        before.types_map().contains_key(name),
        after.types_map() == if before.types_map().contains_key(name) {
            before.types_map()
        } else {
            before.types_map().insert(name, specs)
        },
    ensures
        after.types_map()[name] == before.types_map()[name],
{
}

impl Default for SharedExampleRegistry {
    fn default() -> (r: SharedExampleRegistry)
        ensures
            r.wf(),
            r.definitions_map() == Map::<Seq<char>, Vec<SpecNode>>::empty(),
            r.types_map() == Map::<Seq<char>, Vec<SpecNode>>::empty(),
            r.refs_map() == Map::<Seq<char>, Vec<String>>::empty(),
            r.contents_well_formed(),
    {
        SharedExampleRegistry::new()
    }
}

} // verus!
