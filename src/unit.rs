//! The per-translation-unit record: paths plus the symbols that the unit
//! needs and the symbols that it supplies.

use crate::symbol::DependencySymbol;
use vstd::prelude::*;

verus! {

/// One compiled translation unit.
#[derive(Debug)]
pub struct DependencyInfo {
    pub input_path: String,
    pub output_path: String,
    pub object_path: Option<String>,
    pub undefined: Vec<DependencySymbol>,
    pub defined: Vec<DependencySymbol>,
}

/// The unit defines a symbol named exactly `main`.
pub open spec fn defines_main(info: DependencyInfo) -> bool {
    exists|k: int| 0 <= k < info.defined@.len() && (#[trigger] info.defined@[k]).name@ == "main"@
}

fn clone_symbols(v: &Vec<DependencySymbol>) -> (r: Vec<DependencySymbol>)
    ensures
        r@ == v@,
{
    let mut r: Vec<DependencySymbol> = Vec::new();
    let mut i: usize = 0;
    while i < v.len()
        invariant
            i <= v@.len(),
            r@ == v@.subrange(0, i as int),
        decreases v@.len() - i,
    {
        r.push(v[i].clone());
        i += 1;
    }
    assert(r@ == v@);
    r
}

/// Two records hold the same paths and the same symbol lists.
pub open spec fn same_unit(a: DependencyInfo, b: DependencyInfo) -> bool {
    &&& a.input_path == b.input_path
    &&& a.output_path == b.output_path
    &&& a.object_path == b.object_path
    &&& a.undefined@ == b.undefined@
    &&& a.defined@ == b.defined@
}

impl Clone for DependencyInfo {
    fn clone(&self) -> (r: Self)
        ensures
            same_unit(r, *self),
    {
        let object_path = match &self.object_path {
            Some(p) => Some(p.clone()),
            None => None,
        };
        let r = DependencyInfo {
            input_path: self.input_path.clone(),
            output_path: self.output_path.clone(),
            object_path,
            undefined: clone_symbols(&self.undefined),
            defined: clone_symbols(&self.defined),
        };
        r
    }
}

/// Two records are the same unit when their input and output paths agree;
/// the symbols are not compared.
impl PartialEq for DependencyInfo {
    fn eq(&self, other: &Self) -> (r: bool) {
        self.input_path == other.input_path && self.output_path == other.output_path
    }
}

impl vstd::std_specs::cmp::PartialEqSpecImpl for DependencyInfo {
    open spec fn obeys_eq_spec() -> bool {
        true
    }

    open spec fn eq_spec(&self, other: &DependencyInfo) -> bool {
        self.input_path@ == other.input_path@ && self.output_path@ == other.output_path@
    }
}

impl DependencyInfo {
    pub fn is_main(&self) -> (r: bool)
        ensures
            r == defines_main(*self),
    {
        let main_name = String::from_str("main");
        let mut k: usize = 0;
        while k < self.defined.len()
            invariant
                k <= self.defined@.len(),
                main_name@ == "main"@,
                forall|j: int| 0 <= j < k ==> (#[trigger] self.defined@[j]).name@ != "main"@,
            decreases self.defined@.len() - k,
        {
            if self.defined[k].name == main_name {
                return true;
            }
            k += 1;
        }
        false
    }
}

/// What symbol extraction needs to know of one top-level declaration.
pub enum DeclarationKind {
    /// A function; `has_body` when this declaration defines it.
    Function { is_global: bool, has_body: bool },
    /// A variable; `is_defn` when this declaration defines it.
    Variable { is_externally_visible: bool, is_defn: bool },
    /// Anything else, which takes no part in linking.
    Other,
}

/// One declaration: its kind, its name and the file it stands in.
pub struct Declaration {
    pub kind: DeclarationKind,
    pub name: String,
    pub path: String,
}

/// The declaration takes part in linking: a global function or an
/// externally visible variable.
pub open spec fn is_linked(d: Declaration) -> bool {
    match d.kind {
        DeclarationKind::Function { is_global, .. } => is_global,
        DeclarationKind::Variable { is_externally_visible, .. } => is_externally_visible,
        DeclarationKind::Other => false,
    }
}

/// The declaration defines what it declares.
pub open spec fn is_definition(d: Declaration) -> bool {
    match d.kind {
        DeclarationKind::Function { has_body, .. } => has_body,
        DeclarationKind::Variable { is_defn, .. } => is_defn,
        DeclarationKind::Other => false,
    }
}

/// The symbols of the linked declarations among `decls` that are (when
/// `defined`) or are not definitions, in order.
pub open spec fn declared_symbols(decls: Seq<Declaration>, defined: bool) -> Seq<(Seq<char>, Seq<char>)>
    decreases decls.len(),
{
    if decls.len() == 0 {
        Seq::empty()
    } else {
        let rest = declared_symbols(decls.drop_last(), defined);
        let d = decls.last();
        if is_linked(d) && is_definition(d) == defined {
            rest.push((d.name@, d.path@))
        } else {
            rest
        }
    }
}

/// Symbols as pairs of name and path.
pub open spec fn symbol_texts(v: Seq<DependencySymbol>) -> Seq<(Seq<char>, Seq<char>)> {
    v.map_values(|s: DependencySymbol| (s.name@, s.path@))
}

impl DependencyInfo {
    /// The record of a unit with the given paths and declarations: each
    /// global function and externally visible variable is defined where the
    /// declaration is a definition, and undefined otherwise.
    pub fn from_declarations(
        input_path: String,
        output_path: String,
        object_path: Option<String>,
        decls: &Vec<Declaration>,
    ) -> (r: DependencyInfo)
        ensures
            r.input_path == input_path,
            r.output_path == output_path,
            r.object_path == object_path,
            symbol_texts(r.defined@) == declared_symbols(decls@, true),
            symbol_texts(r.undefined@) == declared_symbols(decls@, false),
    {
        let mut defined: Vec<DependencySymbol> = Vec::new();
        let mut undefined: Vec<DependencySymbol> = Vec::new();
        let mut i: usize = 0;
        while i < decls.len()
            invariant
                i <= decls@.len(),
                symbol_texts(defined@) == declared_symbols(decls@.subrange(0, i as int), true),
                symbol_texts(undefined@) == declared_symbols(decls@.subrange(0, i as int), false),
            decreases decls@.len() - i,
        {
            let d = &decls[i];
            assert(decls@.subrange(0, i + 1).drop_last() =~= decls@.subrange(0, i as int));
            assert(decls@.subrange(0, i + 1).last() == decls@[i as int]);
            let (linked, definition) = match d.kind {
                DeclarationKind::Function { is_global, has_body } => (is_global, has_body),
                DeclarationKind::Variable { is_externally_visible, is_defn } => (is_externally_visible, is_defn),
                DeclarationKind::Other => (false, false),
            };
            if linked {
                let symbol = DependencySymbol { name: d.name.clone(), path: d.path.clone() };
                if definition {
                    let ghost before = defined@;
                    defined.push(symbol);
                    assert(symbol_texts(defined@) =~= symbol_texts(before).push((d.name@, d.path@)));
                } else {
                    let ghost before = undefined@;
                    undefined.push(symbol);
                    assert(symbol_texts(undefined@) =~= symbol_texts(before).push((d.name@, d.path@)));
                }
            }
            i += 1;
        }
        assert(decls@.subrange(0, decls@.len() as int) =~= decls@);
        DependencyInfo { input_path, output_path, object_path, undefined, defined }
    }
}

} // verus!
