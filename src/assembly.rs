//! Which units are binaries, and for each binary which of the translated
//! library modules it needs, with what those modules require.

use crate::graph::{has_input, opt_text, reaches, reaches_from_any, is_closure_order, DependencyGraph};
use crate::naming::{binary_module_name, binary_name_from_path, texts_contain, texts_of};
use crate::requirements::{absorb, crate_ranks, pragma_pairs, ExternCrate, Requirements};
use crate::symbol::{file_stem_of, path_file_stem};
use crate::unit::{defines_main, DependencyInfo};
use vstd::prelude::*;

verus! {

/// `t` occurs in `s` as a contiguous part.
pub open spec fn contains_text(s: Seq<char>, t: Seq<char>) -> bool {
    exists|i: int| 0 <= i && i + t.len() <= s.len() && #[trigger] s.subrange(i, i + t.len()) == t
}

/// The unit defines a symbol whose name contains `main`.
pub open spec fn mentions_main(info: DependencyInfo) -> bool {
    exists|k: int|
        0 <= k < info.defined@.len() && contains_text((#[trigger] info.defined@[k]).name@, "main"@)
}

/// Which units become binaries: those named explicitly, and, when detection
/// is on, every unit with a definition whose name contains `main`.
pub struct BinarySelection {
    pub binaries: Vec<String>,
    pub detect_binaries: bool,
}

/// The unit is built as a binary under `sel`.
pub open spec fn is_binary_unit(sel: BinarySelection, info: DependencyInfo) -> bool {
    ||| (binary_module_name(info.input_path@) matches Some(m) && texts_of(sel.binaries@).contains(m))
    ||| (sel.detect_binaries && mentions_main(info))
}

fn text_contains_main(s: &str) -> (r: bool)
    ensures
        r == contains_text(s@, "main"@),
{
    proof {
        reveal_strlit("main");
    }
    let n = s.unicode_len();
    if n < 4 {
        return false;
    }
    let mut i: usize = 0;
    while i <= n - 4
        invariant
            n == s@.len(),
            n >= 4,
            "main"@ == seq!['m', 'a', 'i', 'n'],
            forall|j: int| 0 <= j < i ==> #[trigger] s@.subrange(j, j + 4) != "main"@,
        decreases n - i,
    {
        if s.get_char(i) == 'm' && s.get_char(i + 1) == 'a' && s.get_char(i + 2) == 'i' && s.get_char(i + 3) == 'n' {
            assert(s@.subrange(i as int, i + 4) =~= "main"@);
            return true;
        }
        assert(s@.subrange(i as int, i + 4) != "main"@) by {
            let t = s@.subrange(i as int, i + 4);
            assert(t[0] == s@[i as int] && t[1] == s@[i + 1] && t[2] == s@[i + 2] && t[3] == s@[i + 3]);
        }
        i += 1;
    }
    proof {
        assert forall|j: int| 0 <= j && j + "main"@.len() <= s@.len() implies #[trigger] s@.subrange(j, j + "main"@.len())
            != "main"@ by {
            assert(j < i);
        }
    }
    false
}

impl BinarySelection {
    pub fn is_binary(&self, dependency_info: &DependencyInfo) -> (r: bool)
        ensures
            r == is_binary_unit(*self, *dependency_info),
    {
        let named = match binary_name_from_path(dependency_info.input_path.as_str()) {
            Some(module_name) => texts_contain(&self.binaries, &module_name),
            None => false,
        };
        if named {
            return true;
        }
        if !self.detect_binaries {
            return false;
        }
        let mut k: usize = 0;
        while k < dependency_info.defined.len()
            invariant
                self.detect_binaries,
                k <= dependency_info.defined@.len(),
                forall|j: int|
                    0 <= j < k ==> !contains_text((#[trigger] dependency_info.defined@[j]).name@, "main"@),
            decreases dependency_info.defined@.len() - k,
        {
            if text_contains_main(dependency_info.defined[k].name.as_str()) {
                assert(contains_text(dependency_info.defined@[k as int].name@, "main"@));
                return true;
            }
            k += 1;
        }
        false
    }
}

/// The binary names that the modules at `modules` give, in order; a path
/// without a stem gives none.
pub open spec fn module_names(modules: Seq<String>) -> Seq<Seq<char>>
    decreases modules.len(),
{
    if modules.len() == 0 {
        Seq::empty()
    } else {
        let rest = module_names(modules.drop_last());
        match binary_module_name(modules.last()@) {
            Some(m) => rest.push(m),
            None => rest,
        }
    }
}

/// The names of `bins`, in order, that are not among `names`.
pub open spec fn unmatched(bins: Seq<Seq<char>>, names: Seq<Seq<char>>) -> Seq<Seq<char>>
    decreases bins.len(),
{
    if bins.len() == 0 {
        Seq::empty()
    } else {
        let rest = unmatched(bins.drop_last(), names);
        if names.contains(bins.last()) {
            rest
        } else {
            rest.push(bins.last())
        }
    }
}

/// The binary names of the translated modules at `transpiled_modules`, in
/// order: the candidates for binaries.
pub fn candidate_module_names(transpiled_modules: &Vec<String>) -> (r: Vec<String>)
    ensures
        texts_of(r@) == module_names(transpiled_modules@),
{
    let mut names: Vec<String> = Vec::new();
    let mut k: usize = 0;
    while k < transpiled_modules.len()
        invariant
            k <= transpiled_modules@.len(),
            texts_of(names@) == module_names(transpiled_modules@.subrange(0, k as int)),
        decreases transpiled_modules@.len() - k,
    {
        let ghost before = names@;
        assert(transpiled_modules@.subrange(0, k + 1).drop_last() =~= transpiled_modules@.subrange(0, k as int));
        match binary_name_from_path(transpiled_modules[k].as_str()) {
            Some(name) => {
                names.push(name);
                assert(texts_of(names@) =~= texts_of(before).push(names@.last()@));
            },
            None => {},
        }
        k += 1;
    }
    assert(transpiled_modules@.subrange(0, transpiled_modules@.len() as int) =~= transpiled_modules@);
    names
}

impl BinarySelection {
    /// The requested binaries, in order, that no translated module is named after.
    pub fn unused_binaries(&self, transpiled_modules: &Vec<String>) -> (r: Vec<String>)
        ensures
            texts_of(r@) == unmatched(texts_of(self.binaries@), module_names(transpiled_modules@)),
    {
        let names = candidate_module_names(transpiled_modules);
        let ghost all = module_names(transpiled_modules@);
        let mut unused: Vec<String> = Vec::new();
        let mut k: usize = 0;
        while k < self.binaries.len()
            invariant
                k <= self.binaries@.len(),
                texts_of(names@) == all,
                texts_of(unused@) == unmatched(texts_of(self.binaries@.subrange(0, k as int)), all),
            decreases self.binaries@.len() - k,
        {
            let ghost before = unused@;
            assert(texts_of(self.binaries@.subrange(0, k + 1)).drop_last() =~= texts_of(self.binaries@.subrange(0, k as int)));
            assert(texts_of(self.binaries@.subrange(0, k + 1)).last() == self.binaries@[k as int]@);
            if !texts_contain(&names, &self.binaries[k]) {
                unused.push(self.binaries[k].clone());
                assert(texts_of(unused@) =~= texts_of(before).push(self.binaries@[k as int]@));
            }
            k += 1;
        }
        assert(self.binaries@.subrange(0, self.binaries@.len() as int) =~= self.binaries@);
        unused
    }

    /// Every requested binary is the name of some translated module.
    pub fn check_if_all_binaries_used(&self, transpiled_modules: &Vec<String>) -> (r: bool)
        ensures
            r == forall|k: int|
                0 <= k < self.binaries@.len() ==> module_names(transpiled_modules@).contains(
                    #[trigger] self.binaries@[k]@,
                ),
    {
        let names = candidate_module_names(transpiled_modules);
        let mut k: usize = 0;
        while k < self.binaries.len()
            invariant
                k <= self.binaries@.len(),
                texts_of(names@) == module_names(transpiled_modules@),
                forall|j: int| 0 <= j < k ==> module_names(transpiled_modules@).contains(#[trigger] self.binaries@[j]@),
            decreases self.binaries@.len() - k,
        {
            if !texts_contain(&names, &self.binaries[k]) {
                return false;
            }
            k += 1;
        }
        true
    }
}

/// What translating one library unit gave: where its module went, and what
/// that module needs.
pub struct TranslatedUnit {
    pub output_path: String,
    pub pragmas: Vec<(&'static str, Vec<&'static str>)>,
    pub crates: Vec<ExternCrate>,
}

/// The node of the first unit compiled from `input` into `object`.
pub open spec fn binary_root(nodes: Seq<DependencyInfo>, input: Seq<char>, object: Option<Seq<char>>) -> Option<usize> {
    if exists|i: int| 0 <= i < nodes.len() && has_input(#[trigger] nodes[i], input, object) {
        Some(
            choose|i: usize|
                (i as int) < nodes.len() && has_input(nodes[i as int], input, object) && forall|j: int|
                    0 <= j < i ==> !has_input(#[trigger] nodes[j], input, object),
        )
    } else {
        None
    }
}

/// A module at `out` belongs to the closure of `root`: some unit that
/// `root` depends on, itself included, has that output path.
pub open spec fn in_binary_closure(g: DependencyGraph, root: Option<usize>, out: Seq<char>) -> bool {
    match root {
        Some(r) => exists|v: usize|
            (v as int) < g.nodes@.len() && reaches(g.adj(), r, v) && #[trigger] g.nodes@[v as int].output_path@
                == out,
        None => false,
    }
}

/// The units of `library` that translated and belong to the closure of `root`,
/// in order.
pub open spec fn selected_units(g: DependencyGraph, root: Option<usize>, library: Seq<Option<TranslatedUnit>>) -> Seq<
    TranslatedUnit,
>
    decreases library.len(),
{
    if library.len() == 0 {
        Seq::empty()
    } else {
        let rest = selected_units(g, root, library.drop_last());
        match library.last() {
            Some(u) => if in_binary_closure(g, root, u.output_path@) {
                rest.push(u)
            } else {
                rest
            },
            None => rest,
        }
    }
}

/// The pragma pairs of `units`, in order.
pub open spec fn units_pragma_pairs(units: Seq<TranslatedUnit>) -> Seq<(Seq<char>, Seq<char>)>
    decreases units.len(),
{
    if units.len() == 0 {
        Seq::empty()
    } else {
        units_pragma_pairs(units.drop_last()) + pragma_pairs(units.last().pragmas@)
    }
}

/// The crate ranks of `units`, in order.
pub open spec fn units_crate_ranks(units: Seq<TranslatedUnit>) -> Seq<u8>
    decreases units.len(),
{
    if units.len() == 0 {
        Seq::empty()
    } else {
        units_crate_ranks(units.drop_last()) + crate_ranks(units.last().crates@)
    }
}

proof fn lemma_absorb_concat<T>(s: Seq<T>, a: Seq<T>, b: Seq<T>)
    ensures
        absorb(s, a + b) == absorb(absorb(s, a), b),
    decreases b.len(),
{
    if b.len() == 0 {
        assert(a + b =~= a);
    } else {
        lemma_absorb_concat(s, a, b.drop_last());
        assert((a + b).drop_last() =~= a + b.drop_last());
        assert((a + b).last() == b.last());
    }
}

proof fn lemma_root_is_first(nodes: Seq<DependencyInfo>, input: Seq<char>, object: Option<Seq<char>>, i: usize)
    requires
        (i as int) < nodes.len(),
        has_input(nodes[i as int], input, object),
        forall|j: int| 0 <= j < i ==> !has_input(#[trigger] nodes[j], input, object),
    ensures
        binary_root(nodes, input, object) == Some(i),
{
    assert(has_input(nodes[i as int], input, object));
    let c = choose|c: usize|
        (c as int) < nodes.len() && has_input(nodes[c as int], input, object) && forall|j: int|
            0 <= j < c ==> !has_input(#[trigger] nodes[j], input, object);
    if c < i {
        assert(!has_input(nodes[c as int], input, object));
    }
    if c > i {
        assert(!has_input(nodes[i as int], input, object));
    }
}

/// The library modules that the binary compiled from `input_path` into
/// `object_path` needs, in the order of `library`, with what they require.
/// A binary whose unit is not in the graph needs none.
pub fn binary_modules(
    graph: &DependencyGraph,
    input_path: &String,
    object_path: &Option<String>,
    library: &Vec<Option<TranslatedUnit>>,
) -> (r: (Vec<String>, Requirements))
    requires
        graph.well_formed(),
    ensures
        ({
            let sel = selected_units(*graph, binary_root(graph.nodes@, input_path@, opt_text(*object_path)), library@);
            &&& r.0@.len() == sel.len()
            &&& forall|k: int| 0 <= k < sel.len() ==> (#[trigger] r.0@[k])@ == sel[k].output_path@
            &&& r.1.well_formed()
            &&& r.1.pragma_view() == absorb(Seq::empty(), units_pragma_pairs(sel))
            &&& r.1.rank_view() == absorb(Seq::empty(), units_crate_ranks(sel))
        }),
{
    let ghost root = binary_root(graph.nodes@, input_path@, opt_text(*object_path));
    let found = graph.get_node_index_with_input(input_path, object_path);
    let ghost mut order: Seq<usize> = Seq::empty();
    let sub = match found {
        Some(idx) => {
            proof {
                lemma_root_is_first(graph.nodes@, input_path@, opt_text(*object_path), idx);
            }
            let seeds = vec![idx];
            assert(seeds@ =~= seq![idx]);
            let sub = graph.extract_sub_dependency(seeds);
            proof {
                order = choose|order: Seq<usize>|
                    is_closure_order(graph.adj(), seq![idx], order) && #[trigger] graph.is_induced_subgraph(sub, order);
            }
            sub
        },
        None => DependencyGraph::new(),
    };
    proof {
        assert(found is None ==> root is None);
    }
    let mut modules: Vec<String> = Vec::new();
    let mut req = Requirements::new();
    let mut i: usize = 0;
    while i < library.len()
        invariant
            graph.well_formed(),
            root == binary_root(graph.nodes@, input_path@, opt_text(*object_path)),
            found == root,
            root is None ==> sub.nodes@.len() == 0,
            root matches Some(idx) ==> is_closure_order(graph.adj(), seq![idx], order) && graph.is_induced_subgraph(sub, order),
            i <= library@.len(),
            modules@.len() == selected_units(*graph, root, library@.subrange(0, i as int)).len(),
            forall|k: int| 0 <= k < modules@.len() ==> (#[trigger] modules@[k])@ == selected_units(*graph, root, library@.subrange(0, i as int))[k].output_path@,
            req.well_formed(),
            req.pragma_view() == absorb(Seq::empty(), units_pragma_pairs(selected_units(*graph, root, library@.subrange(0, i as int)))),
            req.rank_view() == absorb(Seq::empty(), units_crate_ranks(selected_units(*graph, root, library@.subrange(0, i as int)))),
        decreases library@.len() - i,
    {
        let ghost prev = selected_units(*graph, root, library@.subrange(0, i as int));
        assert(library@.subrange(0, i + 1).drop_last() =~= library@.subrange(0, i as int));
        assert(library@.subrange(0, i + 1).last() == library@[i as int]);
        match &library[i] {
            Some(unit) => {
                let hit = sub.get_node_index_with_output(&unit.output_path);
                proof {
                    let out = unit.output_path@;
                    match root {
                        Some(idx) => {
                            let e = graph.adj();
                            if hit.is_some() {
                                let k = hit.unwrap() as int;
                                let v = order[k];
                                assert(order.contains(v));
                                assert(reaches_from_any(e, seq![idx], v));
                                let s = choose|s: int| 0 <= s < 1 && reaches(e, #[trigger] seq![idx][s], v);
                                assert(seq![idx][s] == idx);
                                assert(graph.nodes@[v as int].output_path@ == out);
                            }
                            if in_binary_closure(*graph, root, out) {
                                let v = choose|v: usize|
                                    (v as int) < graph.nodes@.len() && reaches(e, idx, v) && #[trigger] graph.nodes@[v as int].output_path@
                                        == out;
                                assert(seq![idx][0] == idx);
                                assert(reaches_from_any(e, seq![idx], v));
                                assert(order.contains(v));
                                let k = choose|k: int| 0 <= k < order.len() && order[k] == v;
                                assert(sub.nodes@[k].output_path@ == out);
                            }
                        },
                        None => {},
                    }
                    assert(hit.is_some() == in_binary_closure(*graph, root, out));
                }
                if hit.is_some() {
                    modules.push(unit.output_path.clone());
                    proof {
                        assert(prev.push(*unit).drop_last() =~= prev);
                        lemma_absorb_concat(Seq::empty(), units_pragma_pairs(prev), pragma_pairs(unit.pragmas@));
                        lemma_absorb_concat(Seq::empty(), units_crate_ranks(prev), crate_ranks(unit.crates@));
                        assert(units_pragma_pairs(prev.push(*unit)) =~= units_pragma_pairs(prev) + pragma_pairs(unit.pragmas@));
                        assert(units_crate_ranks(prev.push(*unit)) =~= units_crate_ranks(prev) + crate_ranks(unit.crates@));
                        assert(prev.push(*unit).drop_last() =~= prev);
                    }
                    req.add_unit(&unit.pragmas, &unit.crates);
                }
            },
            None => {},
        }
        i += 1;
    }
    assert(library@.subrange(0, library@.len() as int) =~= library@);
    (modules, req)
}

/// The ids below `upto` of the units that define `main` and, when `name` is
/// given, whose output file has that stem; in increasing order.
pub open spec fn main_units(infos: Seq<DependencyInfo>, name: Option<Seq<char>>, upto: int) -> Seq<usize>
    decreases upto,
{
    if upto <= 0 {
        Seq::empty()
    } else {
        let rest = main_units(infos, name, upto - 1);
        let info = infos[upto - 1];
        let named = match name {
            Some(n) => path_file_stem(info.output_path@) == Some(n),
            None => true,
        };
        if named && defines_main(info) {
            rest.push((upto - 1) as usize)
        } else {
            rest
        }
    }
}

/// The seeds for the requested binaries: for each name in turn, the units
/// that define `main` and whose output file has that stem.
pub open spec fn named_seeds(infos: Seq<DependencyInfo>, names: Seq<Seq<char>>) -> Seq<usize>
    decreases names.len(),
{
    if names.len() == 0 {
        Seq::empty()
    } else {
        named_seeds(infos, names.drop_last()) + main_units(infos, Some(names.last()), infos.len() as int)
    }
}

fn main_units_into(infos: &Vec<DependencyInfo>, name: Option<&String>, seeds: &mut Vec<usize>)
    ensures
        final(seeds)@ == old(seeds)@ + main_units(
            infos@,
            match name {
                Some(n) => Some(n@),
                None => None,
            },
            infos@.len() as int,
        ),
{
    let ghost wanted = match name {
        Some(n) => Some(n@),
        None => None,
    };
    let ghost start = seeds@;
    let mut i: usize = 0;
    while i < infos.len()
        invariant
            i <= infos@.len(),
            wanted == match name {
                Some(n) => Some(n@),
                None => None,
            },
            seeds@ == start + main_units(infos@, wanted, i as int),
        decreases infos@.len() - i,
    {
        let named = match name {
            Some(n) => match file_stem_of(infos[i].output_path.as_str()) {
                Some(stem) => stem == *n,
                None => false,
            },
            None => true,
        };
        if named && infos[i].is_main() {
            seeds.push(i);
            assert(seeds@ =~= start + main_units(infos@, wanted, i + 1));
        }
        i += 1;
    }
}

/// The units to extract the graph from: every unit that defines `main` when
/// `all_binaries` is set, else those that the names in `binaries` pick.
pub fn binary_seeds(infos: &Vec<DependencyInfo>, all_binaries: bool, binaries: &Vec<String>) -> (r: Vec<usize>)
    ensures
        all_binaries ==> r@ == main_units(infos@, None, infos@.len() as int),
        !all_binaries ==> r@ == named_seeds(infos@, texts_of(binaries@)),
{
    let mut seeds: Vec<usize> = Vec::new();
    if all_binaries {
        main_units_into(infos, None, &mut seeds);
        assert(seeds@ =~= main_units(infos@, None, infos@.len() as int));
        return seeds;
    }
    let mut k: usize = 0;
    assert(texts_of(binaries@.subrange(0, 0)) =~= Seq::<Seq<char>>::empty());
    while k < binaries.len()
        invariant
            k <= binaries@.len(),
            seeds@ == named_seeds(infos@, texts_of(binaries@.subrange(0, k as int))),
        decreases binaries@.len() - k,
    {
        let ghost before = seeds@;
        main_units_into(infos, Some(&binaries[k]), &mut seeds);
        assert(texts_of(binaries@.subrange(0, k + 1)).drop_last() =~= texts_of(binaries@.subrange(0, k as int)));
        assert(texts_of(binaries@.subrange(0, k + 1)).last() == binaries@[k as int]@);
        k += 1;
    }
    assert(binaries@.subrange(0, binaries@.len() as int) =~= binaries@);
    seeds
}

/// The units that translated, in order.
pub open spec fn translated_units(results: Seq<Option<TranslatedUnit>>) -> Seq<TranslatedUnit>
    decreases results.len(),
{
    if results.len() == 0 {
        Seq::empty()
    } else {
        let rest = translated_units(results.drop_last());
        match results.last() {
            Some(u) => rest.push(u),
            None => rest,
        }
    }
}

/// What one link command gave: the modules that translated, in order;
/// whether some unit failed, in which case its build files cannot be
/// written; and what the translated modules need.
pub fn link_outcome(results: &Vec<Option<TranslatedUnit>>) -> (r: (Vec<String>, bool, Requirements))
    ensures
        ({
            let done = translated_units(results@);
            &&& r.0@.len() == done.len()
            &&& forall|k: int| 0 <= k < done.len() ==> (#[trigger] r.0@[k])@ == done[k].output_path@
            &&& r.1 == exists|k: int| 0 <= k < results@.len() && (#[trigger] results@[k]) is None
            &&& r.2.well_formed()
            &&& r.2.pragma_view() == absorb(Seq::empty(), units_pragma_pairs(done))
            &&& r.2.rank_view() == absorb(Seq::empty(), units_crate_ranks(done))
        }),
{
    let mut modules: Vec<String> = Vec::new();
    let mut skipped = false;
    let mut req = Requirements::new();
    let mut i: usize = 0;
    while i < results.len()
        invariant
            i <= results@.len(),
            modules@.len() == translated_units(results@.subrange(0, i as int)).len(),
            forall|k: int| 0 <= k < modules@.len() ==> (#[trigger] modules@[k])@ == translated_units(results@.subrange(0, i as int))[k].output_path@,
            skipped == exists|k: int| 0 <= k < i && (#[trigger] results@[k]) is None,
            req.well_formed(),
            req.pragma_view() == absorb(Seq::empty(), units_pragma_pairs(translated_units(results@.subrange(0, i as int)))),
            req.rank_view() == absorb(Seq::empty(), units_crate_ranks(translated_units(results@.subrange(0, i as int)))),
        decreases results@.len() - i,
    {
        let ghost prev = translated_units(results@.subrange(0, i as int));
        assert(results@.subrange(0, i + 1).drop_last() =~= results@.subrange(0, i as int));
        assert(results@.subrange(0, i + 1).last() == results@[i as int]);
        match &results[i] {
            Some(unit) => {
                modules.push(unit.output_path.clone());
                proof {
                    assert(prev.push(*unit).drop_last() =~= prev);
                    lemma_absorb_concat(Seq::empty(), units_pragma_pairs(prev), pragma_pairs(unit.pragmas@));
                    lemma_absorb_concat(Seq::empty(), units_crate_ranks(prev), crate_ranks(unit.crates@));
                }
                req.add_unit(&unit.pragmas, &unit.crates);
            },
            None => {
                skipped = true;
            },
        }
        i += 1;
    }
    assert(results@.subrange(0, results@.len() as int) =~= results@);
    (modules, skipped, req)
}

/// The ids of the units below `upto` whose role under `sel` is `binary`.
pub open spec fn units_with_role(sel: BinarySelection, units: Seq<DependencyInfo>, binary: bool, upto: int) -> Seq<usize>
    decreases upto,
{
    if upto <= 0 {
        Seq::empty()
    } else {
        let rest = units_with_role(sel, units, binary, upto - 1);
        if is_binary_unit(sel, units[upto - 1]) == binary {
            rest.push((upto - 1) as usize)
        } else {
            rest
        }
    }
}

impl BinarySelection {
    /// The ids of the library units and of the binary units, each in order.
    pub fn split_roles(&self, units: &Vec<DependencyInfo>) -> (r: (Vec<usize>, Vec<usize>))
        ensures
            r.0@ == units_with_role(*self, units@, false, units@.len() as int),
            r.1@ == units_with_role(*self, units@, true, units@.len() as int),
    {
        let mut library: Vec<usize> = Vec::new();
        let mut binaries: Vec<usize> = Vec::new();
        let mut i: usize = 0;
        while i < units.len()
            invariant
                i <= units@.len(),
                library@ == units_with_role(*self, units@, false, i as int),
                binaries@ == units_with_role(*self, units@, true, i as int),
            decreases units@.len() - i,
        {
            if self.is_binary(&units[i]) {
                binaries.push(i);
            } else {
                library.push(i);
            }
            i += 1;
        }
        (library, binaries)
    }
}

/// What is emitted, once the implications between the options are applied.
pub struct EmitOptions {
    pub emit_modules: bool,
    pub emit_build_files: bool,
}

/// Requesting binaries, detecting them or emitting binary files implies
/// emitting build files, and emitting build files implies emitting modules.
pub fn implied_emit_options(
    binaries: &Vec<String>,
    detect_binaries: bool,
    emit_binaries: bool,
    emit_build_files: bool,
    emit_modules: bool,
) -> (r: EmitOptions)
    ensures
        r.emit_build_files == (emit_build_files || binaries@.len() > 0 || detect_binaries || emit_binaries),
        r.emit_modules == (emit_modules || r.emit_build_files),
{
    let build_files = emit_build_files || binaries.len() > 0 || detect_binaries || emit_binaries;
    EmitOptions { emit_modules: emit_modules || build_files, emit_build_files: build_files }
}

/// A translated unit gets the crate preamble in front of its text exactly
/// when binary files are emitted and the unit is a binary.
pub fn prepends_preamble(emit_binaries: bool, is_binary: bool) -> (r: bool)
    ensures
        r == (emit_binaries && is_binary),
{
    emit_binaries && is_binary
}

} // verus!
