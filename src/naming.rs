//! Module names derived from file paths: characters that cannot stand in a
//! Rust identifier become underscores.

use crate::graph::opt_text;
use crate::symbol::{file_stem_of, path_file_stem};
use std::path::Path;
use vstd::prelude::*;

verus! {

/// What `char::is_alphanumeric` says of a character.
pub uninterp spec fn char_is_alphanumeric(c: char) -> bool;

/// What `Path::extension` gives for a path, as text.
pub uninterp spec fn path_extension(p: Seq<char>) -> Option<Seq<char>>;

/// What `Path::file_name` gives for a path, as text.
pub uninterp spec fn path_file_name(p: Seq<char>) -> Option<Seq<char>>;

/// What `Path::with_file_name` gives for a path and a new file name, as text.
pub uninterp spec fn path_with_file_name(p: Seq<char>, name: Seq<char>) -> Seq<char>;

/// Relies on `char::is_alphanumeric`, which depends on the character alone.
#[verifier::external_body]
fn is_alphanumeric(c: char) -> (r: bool)
    ensures
        r == char_is_alphanumeric(c),
{
    c.is_alphanumeric()
}

/// Relies on `Path::extension`: the part of the file name after its last dot.
#[verifier::external_body]
fn extension_of(p: &str) -> (r: Option<String>)
    ensures
        r matches Some(s) ==> path_extension(p@) == Some(s@),
        r is None ==> path_extension(p@) is None,
{
    Path::new(p).extension().map(|s| s.to_string_lossy().into_owned())
}

/// Relies on `Path::file_name`: the final component of the path, if it is
/// a normal one.
#[verifier::external_body]
fn file_name_of(p: &str) -> (r: Option<String>)
    ensures
        r matches Some(s) ==> path_file_name(p@) == Some(s@),
        r is None ==> path_file_name(p@) is None,
{
    Path::new(p).file_name().map(|s| s.to_string_lossy().into_owned())
}

/// Relies on `Path::with_file_name`: the path with its file name replaced.
#[verifier::external_body]
fn with_file_name(p: &str, name: &str) -> (r: String)
    ensures
        r@ == path_with_file_name(p@, name@),
{
    Path::new(p).with_file_name(name).to_string_lossy().into_owned()
}

/// What `Path::with_extension` gives for a path and an extension, as text.
pub uninterp spec fn path_with_extension(p: Seq<char>, ext: Seq<char>) -> Seq<char>;

/// What `Path::strip_prefix` gives for a path and a base, as text.
pub uninterp spec fn path_strip_prefix(p: Seq<char>, base: Seq<char>) -> Option<Seq<char>>;

/// The components that `Path::iter` yields for a path, as text.
pub uninterp spec fn path_components(p: Seq<char>) -> Seq<Seq<char>>;

/// What `PathBuf::push` makes of a base path and one more part, as text.
pub uninterp spec fn path_join(base: Seq<char>, part: Seq<char>) -> Seq<char>;

/// Relies on `Path::with_extension`: the path with its extension replaced.
/// It panics when the extension holds a path separator, so none is admitted.
#[verifier::external_body]
fn with_extension(p: &str, ext: &str) -> (r: String)
    requires
        !ext@.contains('/'),
        !ext@.contains('\\'),
    ensures
        r@ == path_with_extension(p@, ext@),
{
    Path::new(p).with_extension(ext).to_string_lossy().into_owned()
}

/// Relies on `Path::strip_prefix`: the rest of the path after `base`, when
/// `base` is a prefix of it component by component.
#[verifier::external_body]
fn strip_prefix(p: &str, base: &str) -> (r: Option<String>)
    ensures
        r matches Some(s) ==> path_strip_prefix(p@, base@) == Some(s@),
        r is None ==> path_strip_prefix(p@, base@) is None,
{
    Path::new(p).strip_prefix(base).ok().map(|s| s.to_string_lossy().into_owned())
}

/// Relies on `Path::iter`: the components of the path, in order.
#[verifier::external_body]
fn components_of(p: &str) -> (r: Vec<String>)
    ensures
        r@.len() == path_components(p@).len(),
        forall|k: int| 0 <= k < r@.len() ==> (#[trigger] r@[k])@ == path_components(p@)[k],
{
    Path::new(p).iter().map(|c| c.to_string_lossy().into_owned()).collect()
}

/// Relies on `PathBuf::push`: `part` appended to `base` as one more part.
#[verifier::external_body]
fn join(base: &str, part: &str) -> (r: String)
    ensures
        r@ == path_join(base@, part@),
{
    let mut p = std::path::PathBuf::from(base);
    p.push(part);
    p.to_string_lossy().into_owned()
}

/// What `Path::parent` gives for a path, as text.
pub uninterp spec fn path_parent(p: Seq<char>) -> Option<Seq<char>>;

/// What `Path::starts_with` says of a path and a base.
pub uninterp spec fn path_starts_with(p: Seq<char>, base: Seq<char>) -> bool;

/// Relies on `Path::parent`: the path without its final component.
#[verifier::external_body]
fn parent_of(p: &str) -> (r: Option<String>)
    ensures
        r matches Some(s) ==> path_parent(p@) == Some(s@),
        r is None ==> path_parent(p@) is None,
{
    Path::new(p).parent().map(|s| s.to_string_lossy().into_owned())
}

/// Relies on `Path::starts_with`: `base` is a prefix of the path, component
/// by component.
#[verifier::external_body]
fn starts_with(p: &str, base: &str) -> (r: bool)
    ensures
        r == path_starts_with(p@, base@),
{
    Path::new(p).starts_with(base)
}

/// Relies on `String`'s `FromIterator<char>`: the characters in order.
#[verifier::external_body]
pub(crate) fn string_from_chars(v: &Vec<char>) -> (r: String)
    ensures
        r@ == v@,
{
    v.iter().collect()
}

/// Strings as texts.
pub open spec fn texts_of(v: Seq<String>) -> Seq<Seq<char>> {
    v.map_values(|s: String| s@)
}

/// The character itself where it may stand in an identifier, else `_`.
pub open spec fn ident_char(c: char) -> char {
    if char_is_alphanumeric(c) {
        c
    } else {
        '_'
    }
}

/// Every character of `s` replaced as `ident_char` says.
pub open spec fn ident_of(s: Seq<char>) -> Seq<char> {
    Seq::new(s.len(), |i: int| ident_char(s[i]))
}

/// The file name that a module is named after: the stem of a `.rs` file,
/// the whole file name of any other.
pub open spec fn module_file_name(file: Seq<char>) -> Option<Seq<char>> {
    if path_extension(file) == Some("rs"@) {
        path_file_stem(file)
    } else {
        path_file_name(file)
    }
}

/// `s` made fit for an identifier, and prefixed with `r#` where it is one
/// of the `reserved` names.
pub open spec fn checked_ident(s: Seq<char>, reserved: Seq<Seq<char>>) -> Seq<char> {
    if reserved.contains(ident_of(s)) {
        "r#"@ + ident_of(s)
    } else {
        ident_of(s)
    }
}

/// The module name of `file`, escaped where it is a `reserved` name; `.rs`
/// kept where asked and the file was one; the whole path with its file name
/// replaced where asked.
pub open spec fn module_name(file: Seq<char>, reserved: Seq<Seq<char>>, keep_extension: bool, full_path: bool) -> Option<
    Seq<char>,
> {
    match module_file_name(file) {
        Some(fname) => {
            let name = if keep_extension && path_extension(file) == Some("rs"@) {
                checked_ident(fname, reserved) + ".rs"@
            } else {
                checked_ident(fname, reserved)
            };
            Some(
                if full_path {
                    path_with_file_name(file, name)
                } else {
                    name
                },
            )
        },
        None => None,
    }
}

/// The name of the binary that the file at `file` makes: the module name of
/// its stem.
pub open spec fn binary_module_name(file: Seq<char>) -> Option<Seq<char>> {
    match path_file_stem(file) {
        Some(stem) => module_name(stem, Seq::empty(), false, false),
        None => None,
    }
}

/// The text with every `-` replaced by `_`.
pub open spec fn dashes_to_underscores(s: Seq<char>) -> Seq<char> {
    Seq::new(s.len(), |i: int| if s[i] == '-' { '_' } else { s[i] })
}

/// Where the translation of `input` goes before placement: the explicit
/// `output` if there is one, with dashes in its file name made underscores
/// and its extension made `rs`; `None` where the path has no file name.
pub open spec fn renamed_source(input: Seq<char>, output: Option<Seq<char>>) -> Option<Seq<char>> {
    let p = match output {
        Some(o) => o,
        None => input,
    };
    match path_file_name(p) {
        Some(f) => Some(path_with_extension(path_with_file_name(p, dashes_to_underscores(f)), "rs"@)),
        None => None,
    }
}

/// `base` with the module name of each of `parts` appended in turn.
pub open spec fn join_module_names(base: Seq<char>, parts: Seq<Seq<char>>) -> Option<Seq<char>>
    decreases parts.len(),
{
    if parts.len() == 0 {
        Some(base)
    } else {
        match join_module_names(base, parts.drop_last()) {
            Some(b) => match module_name(parts.last(), Seq::empty(), true, false) {
                Some(m) => Some(path_join(b, m)),
                None => None,
            },
            None => None,
        }
    }
}

/// Where the translation of `input` is written. Without an output directory
/// it is the renamed source. With one, the path relative to `ancestor` is
/// placed under `build_dir`: a binary directly, by its last part; a library
/// module under `src`, part by part, each made a module name.
pub open spec fn output_path_of(
    input: Seq<char>,
    output: Option<Seq<char>>,
    ancestor: Seq<char>,
    build_dir: Seq<char>,
    has_output_dir: bool,
    is_binary: bool,
) -> Option<Seq<char>> {
    match renamed_source(input, output) {
        None => None,
        Some(p) => if !has_output_dir {
            Some(p)
        } else {
            match path_strip_prefix(p, ancestor) {
                None => None,
                Some(rel) => {
                    let parts = path_components(rel);
                    if is_binary {
                        if parts.len() == 0 {
                            None
                        } else {
                            match module_name(parts.last(), Seq::empty(), true, false) {
                                Some(m) => Some(path_join(build_dir, m)),
                                None => None,
                            }
                        }
                    } else {
                        join_module_names(path_join(build_dir, "src"@), parts)
                    }
                },
            }
        },
    }
}

proof fn lemma_join_stays_none(base: Seq<char>, parts: Seq<Seq<char>>, k: int)
    requires
        0 <= k <= parts.len(),
        join_module_names(base, parts.subrange(0, k)) is None,
    ensures
        join_module_names(base, parts) is None,
    decreases parts.len(),
{
    if parts.len() == k {
        assert(parts.subrange(0, k) =~= parts);
    } else {
        assert(parts.drop_last().subrange(0, k) =~= parts.subrange(0, k));
        lemma_join_stays_none(base, parts.drop_last(), k);
    }
}

pub(crate) fn replace_dashes(s: &str) -> (r: String)
    ensures
        r@ == dashes_to_underscores(s@),
{
    let n = s.unicode_len();
    let mut out: Vec<char> = Vec::new();
    let mut i: usize = 0;
    while i < n
        invariant
            n == s@.len(),
            i <= n,
            out@ == dashes_to_underscores(s@).subrange(0, i as int),
        decreases n - i,
    {
        let c = s.get_char(i);
        out.push(if c == '-' { '_' } else { c });
        i += 1;
    }
    assert(out@ =~= dashes_to_underscores(s@));
    string_from_chars(&out)
}

pub fn char_to_ident(c: char) -> (r: char)
    ensures
        r == ident_char(c),
{
    if is_alphanumeric(c) {
        c
    } else {
        '_'
    }
}

pub fn str_to_ident(s: &str) -> (r: String)
    ensures
        r@ == ident_of(s@),
{
    let n = s.unicode_len();
    let mut out: Vec<char> = Vec::new();
    let mut i: usize = 0;
    while i < n
        invariant
            n == s@.len(),
            i <= n,
            out@ == ident_of(s@).subrange(0, i as int),
        decreases n - i,
    {
        out.push(char_to_ident(s.get_char(i)));
        i += 1;
    }
    assert(out@ =~= ident_of(s@));
    string_from_chars(&out)
}

pub(crate) fn texts_contain(v: &Vec<String>, s: &String) -> (r: bool)
    ensures
        r == texts_of(v@).contains(s@),
{
    let mut k: usize = 0;
    while k < v.len()
        invariant
            k <= v@.len(),
            forall|j: int| 0 <= j < k ==> v@[j]@ != s@,
        decreases v@.len() - k,
    {
        if v[k] == *s {
            assert(texts_of(v@)[k as int] == s@);
            return true;
        }
        k += 1;
    }
    proof {
        if texts_of(v@).contains(s@) {
            let j = choose|j: int| 0 <= j < texts_of(v@).len() && texts_of(v@)[j] == s@;
            assert(v@[j]@ == s@);
        }
    }
    false
}

/// The name made fit for an identifier, and escaped with `r#` where it is
/// one of `reserved_names`; `None` if there is no name.
pub fn str_to_ident_checked(filename: &Option<String>, reserved_names: &Vec<String>) -> (r: Option<String>)
    ensures
        r matches Some(m) ==> filename matches Some(f) && m@ == checked_ident(f@, texts_of(reserved_names@)),
        r is None ==> filename is None,
{
    match filename {
        Some(f) => {
            let module = str_to_ident(f.as_str());
            if texts_contain(reserved_names, &module) {
                let mut raw = String::from_str("r#");
                raw.append(module.as_str());
                Some(raw)
            } else {
                Some(module)
            }
        },
        None => None,
    }
}

fn is_rs_extension(file: &str) -> (r: bool)
    ensures
        r == (path_extension(file@) == Some("rs"@)),
{
    match extension_of(file) {
        Some(ext) => ext == String::from_str("rs"),
        None => false,
    }
}

/// The module name of `file`, or `None` where the path has no file name.
pub fn get_module_name(file: &str, reserved_names: &Vec<String>, keep_extension: bool, full_path: bool) -> (r:
    Option<String>)
    ensures
        r matches Some(m) ==> module_name(file@, texts_of(reserved_names@), keep_extension, full_path) == Some(m@),
        r is None ==> module_name(file@, texts_of(reserved_names@), keep_extension, full_path) is None,
{
    let is_rs = is_rs_extension(file);
    let fname = if is_rs {
        file_stem_of(file)
    } else {
        file_name_of(file)
    };
    let mut name = match str_to_ident_checked(&fname, reserved_names) {
        Some(name) => name,
        None => {
            return None;
        },
    };
    if keep_extension && is_rs {
        name.append(".rs");
    }
    if full_path {
        Some(with_file_name(file, name.as_str()))
    } else {
        Some(name)
    }
}

/// The name of the binary that the file at `file` makes, or `None` where
/// the path has no stem.
pub fn binary_name_from_path(file: &str) -> (r: Option<String>)
    ensures
        r matches Some(m) ==> binary_module_name(file@) == Some(m@),
        r is None ==> binary_module_name(file@) is None,
{
    match file_stem_of(file) {
        Some(stem) => {
            let none: Vec<String> = Vec::new();
            assert(texts_of(none@) =~= Seq::<Seq<char>>::empty());
            get_module_name(stem.as_str(), &none, false, false)
        },
        None => None,
    }
}

/// Where the translation of `input_path` is written (see `output_path_of`);
/// `None` where a path lacks a file name or `ancestor_path` is not a prefix.
pub fn get_output_path(
    input_path: &str,
    output_path: &Option<String>,
    ancestor_path: &str,
    build_dir: &str,
    has_output_dir: bool,
    is_binary: bool,
) -> (r: Option<String>)
    ensures
        r matches Some(p) ==> output_path_of(
            input_path@,
            opt_text(*output_path),
            ancestor_path@,
            build_dir@,
            has_output_dir,
            is_binary,
        ) == Some(p@),
        r is None ==> output_path_of(
            input_path@,
            opt_text(*output_path),
            ancestor_path@,
            build_dir@,
            has_output_dir,
            is_binary,
        ) is None,
{
    let source = match output_path {
        Some(o) => o.as_str(),
        None => input_path,
    };
    let file_name = match file_name_of(source) {
        Some(f) => f,
        None => {
            return None;
        },
    };
    let renamed = with_file_name(source, replace_dashes(file_name.as_str()).as_str());
    proof {
        reveal_strlit("rs");
        assert(!"rs"@.contains('/') && !"rs"@.contains('\\')) by {
            assert("rs"@ =~= seq!['r', 's']);
        }
    }
    let renamed = with_extension(renamed.as_str(), "rs");
    if !has_output_dir {
        return Some(renamed);
    }
    let relative = match strip_prefix(renamed.as_str(), ancestor_path) {
        Some(rel) => rel,
        None => {
            return None;
        },
    };
    let parts = components_of(relative.as_str());
    if is_binary {
        if parts.len() == 0 {
            return None;
        }
        let none: Vec<String> = Vec::new();
        assert(texts_of(none@) =~= Seq::<Seq<char>>::empty());
        return match get_module_name(parts[parts.len() - 1].as_str(), &none, true, false) {
            Some(name) => Some(join(build_dir, name.as_str())),
            None => None,
        };
    }
    let none: Vec<String> = Vec::new();
    assert(texts_of(none@) =~= Seq::<Seq<char>>::empty());
    let ghost all = path_components(relative@);
    let ghost target = output_path_of(
        input_path@,
        opt_text(*output_path),
        ancestor_path@,
        build_dir@,
        has_output_dir,
        is_binary,
    );
    assert(target == join_module_names(path_join(build_dir@, "src"@), all));
    let mut placed = join(build_dir, "src");
    let mut k: usize = 0;
    while k < parts.len()
        invariant
            k <= parts@.len(),
            parts@.len() == all.len(),
            forall|m: int| 0 <= m < parts@.len() ==> (#[trigger] parts@[m])@ == all[m],
            texts_of(none@) == Seq::<Seq<char>>::empty(),
            join_module_names(path_join(build_dir@, "src"@), all.subrange(0, k as int)) == Some(placed@),
            target == join_module_names(path_join(build_dir@, "src"@), all),
            target == output_path_of(
                input_path@,
                opt_text(*output_path),
                ancestor_path@,
                build_dir@,
                has_output_dir,
                is_binary,
            ),
        decreases parts@.len() - k,
    {
        assert(all.subrange(0, k + 1).drop_last() =~= all.subrange(0, k as int));
        match get_module_name(parts[k].as_str(), &none, true, false) {
            Some(name) => {
                placed = join(placed.as_str(), name.as_str());
            },
            None => {
                proof {
                    assert(all.subrange(0, k + 1).last() == all[k as int]);
                    assert(parts@[k as int]@ == all[k as int]);
                    assert(join_module_names(path_join(build_dir@, "src"@), all.subrange(0, k + 1)) is None);
                    lemma_join_stays_none(path_join(build_dir@, "src"@), all, k + 1);
                }
                return None;
            },
        }
        k += 1;
    }
    assert(all.subrange(0, all.len() as int) =~= all);
    Some(placed)
}

/// Where the translation of `input_path` is written when it is placed as a
/// library module.
pub fn get_output_path_raw(
    input_path: &str,
    output_path: &Option<String>,
    ancestor_path: &str,
    build_dir: &str,
    has_output_dir: bool,
) -> (r: Option<String>)
    ensures
        r matches Some(p) ==> output_path_of(
            input_path@,
            opt_text(*output_path),
            ancestor_path@,
            build_dir@,
            has_output_dir,
            false,
        ) == Some(p@),
        r is None ==> output_path_of(
            input_path@,
            opt_text(*output_path),
            ancestor_path@,
            build_dir@,
            has_output_dir,
            false,
        ) is None,
{
    get_output_path(input_path, output_path, ancestor_path, build_dir, has_output_dir, false)
}

/// The first of `dir`, its parent, its parent's parent and so on, that is a
/// prefix of `p`; empty when none is. `steps` bounds the walk up; one step
/// per character of `dir` is granted, as many as any chain of parents needs.
pub open spec fn nearest_common(dir: Seq<char>, p: Seq<char>, steps: nat) -> Seq<char>
    decreases steps,
{
    if path_starts_with(p, dir) {
        dir
    } else if steps == 0 {
        Seq::empty()
    } else {
        match path_parent(dir) {
            Some(up) => nearest_common(up, p, (steps - 1) as nat),
            None => Seq::empty(),
        }
    }
}

/// The directory of the first file, then narrowed by each further file to
/// the nearest of its ancestors that the file lies under.
pub open spec fn common_ancestor_of(files: Seq<Seq<char>>) -> Seq<char>
    decreases files.len(),
{
    if files.len() == 0 {
        Seq::empty()
    } else if files.len() == 1 {
        match path_parent(files[0]) {
            Some(d) => d,
            None => files[0],
        }
    } else {
        let before = common_ancestor_of(files.drop_last());
        nearest_common(before, files.last(), before.len())
    }
}

fn nearest_common_dir(dir: String, p: &str) -> (r: String)
    ensures
        r@ == nearest_common(dir@, p@, dir@.len()),
{
    let ghost start = dir@;
    let limit = dir.as_str().unicode_len();
    let mut current = dir;
    let mut steps: usize = 0;
    loop
        invariant
            start == dir@,
            steps <= limit,
            limit == start.len(),
            nearest_common(start, p@, start.len()) == nearest_common(
                current@,
                p@,
                (start.len() - steps) as nat,
            ),
        decreases limit - steps,
    {
        if starts_with(p, current.as_str()) {
            return current;
        }
        if steps == limit {
            return String::new();
        }
        match parent_of(current.as_str()) {
            Some(up) => {
                current = up;
            },
            None => {
                return String::new();
            },
        }
        steps += 1;
    }
}

/// The common ancestor directory of `files`, as `common_ancestor_of` says.
pub fn common_ancestor(files: &Vec<String>) -> (r: String)
    ensures
        r@ == common_ancestor_of(texts_of(files@)),
{
    if files.len() == 0 {
        return String::new();
    }
    let mut ancestor = match parent_of(files[0].as_str()) {
        Some(d) => d,
        None => files[0].clone(),
    };
    assert(texts_of(files@.subrange(0, 1)) =~= seq![files@[0]@]);
    let mut k: usize = 1;
    while k < files.len()
        invariant
            1 <= k <= files@.len(),
            ancestor@ == common_ancestor_of(texts_of(files@.subrange(0, k as int))),
        decreases files@.len() - k,
    {
        assert(texts_of(files@.subrange(0, k + 1)).drop_last() =~= texts_of(files@.subrange(0, k as int)));
        assert(texts_of(files@.subrange(0, k + 1)).last() == files@[k as int]@);
        ancestor = nearest_common_dir(ancestor, files[k].as_str());
        k += 1;
    }
    assert(files@.subrange(0, files@.len() as int) =~= files@);
    ancestor
}

/// The name of the crate that translated code goes into: the file name of the
/// output directory, or `c2rust_out` without one.
pub open spec fn crate_name_of(output_dir: Option<Seq<char>>) -> Seq<char> {
    match output_dir {
        Some(d) => match path_file_name(d) {
            Some(n) => n,
            None => "c2rust_out"@,
        },
        None => "c2rust_out"@,
    }
}

pub fn crate_name(output_dir: &Option<String>) -> (r: String)
    ensures
        r@ == crate_name_of(opt_text(*output_dir)),
{
    match output_dir {
        Some(d) => match file_name_of(d.as_str()) {
            Some(n) => n,
            None => String::from_str("c2rust_out"),
        },
        None => String::from_str("c2rust_out"),
    }
}

} // verus!
