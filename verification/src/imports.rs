//! What the type names in a function stand for: a type of the package that the
//! file belongs to, or nothing where the file takes the name from elsewhere.
use vstd::prelude::*;
use crate::chunks;
use crate::graph;
use crate::graph::{token_text, FileSyntax, SyntaxModel};
use crate::items;
use crate::items::{Item, ItemKind, ItemModel};
use crate::lexer;
use crate::lexer::{chars_of, Kind, TokenModel};
use crate::paths;
use crate::paths::{lies_within, parent_of};
use crate::source::SourceTree;
use crate::syntax;
use crate::syntax::Code;
use crate::text;
use crate::text::{contains_text, same_text};

verus! {

/// A package: its name, and the directory that its manifest stands in.
#[derive(Debug)]
pub struct Package {
    pub directory: String,
    pub name: String,
}

/// The directories and names of packages, as plain values.
pub open spec fn package_models(rows: Seq<Package>) -> Seq<(Seq<char>, Seq<char>)> {
    rows.map_values(|p: Package| (p.directory@, p.name@))
}

/// The path is that of a manifest.
pub open spec fn is_manifest(path: Seq<char>) -> bool {
    path == "Cargo.toml"@ || (path.len() >= 11 && chunks::begins_at(
        path,
        path.len() - 11,
        "/Cargo.toml"@,
    ))
}

fn names_manifest(path: &str) -> (r: bool)
    ensures
        r == is_manifest(path@),
{
    if same_text(path, "Cargo.toml") {
        return true;
    }
    let s = chars_of(path);
    s.len() >= 11 && chunks::begins(&s, s.len() - 11, "/Cargo.toml")
}

/// The name that a section goes on to give from `i` on.
pub open spec fn name_from(toks: Seq<TokenModel>, i: int) -> Option<Seq<char>>
    decreases toks.len() - i,
{
    if !(0 <= i < toks.len()) || syntax::at(toks, i, "["@) {
        None
    } else if syntax::at(toks, i, "name"@) && syntax::at(toks, i + 1, "="@) && i + 2 < toks.len()
        && toks[i + 2].kind == Kind::Literal && toks[i + 2].text.len() >= 2 {
        Some(toks[i + 2].text.subrange(1, toks[i + 2].text.len() - 1))
    } else {
        name_from(toks, i + 1)
    }
}

/// The name that the manifest gives its package, as far as it is read from `i` on.
pub open spec fn package_name(toks: Seq<TokenModel>, i: int) -> Option<Seq<char>>
    decreases toks.len() - i,
{
    if !(0 <= i < toks.len()) {
        None
    } else if syntax::at(toks, i, "["@) && syntax::at(toks, i + 1, "package"@) && syntax::at(
        toks,
        i + 2,
        "]"@,
    ) {
        name_from(toks, i + 3)
    } else {
        package_name(toks, i + 1)
    }
}

/// A text that may be missing, as a plain value.
pub open spec fn optional_text(x: Option<String>) -> Option<Seq<char>> {
    match x {
        Some(s) => Some(s@),
        None => None,
    }
}

fn find_name(code: &Code, start: usize) -> (r: Option<String>)
    ensures
        optional_text(r) == name_from(code@, start as int),
{
    let mut i: usize = start;
    while i < code.toks.len() && !code.is(i, "[")
        invariant
            start <= i,
            code@.len() == code.toks.len(),
            name_from(code@, start as int) == name_from(code@, i as int),
        decreases code.toks.len() - i,
    {
        if code.toks.len() - i > 2 {
            assert(code@[i + 2] == code.toks@[i + 2]@);
            let given = &code.toks[i + 2];
            let n: usize = given.text.as_str().unicode_len();
            if code.is(i, "name") && code.is(i + 1, "=") && given.kind == Kind::Literal && n >= 2 {
                return Some(given.text.as_str().substring_char(1, n - 1).to_owned());
            }
        }
        i += 1;
    }
    None
}

/// The name that a manifest gives its package, if it gives one.
pub fn find_package_name(manifest: &str) -> (r: Option<String>)
    ensures
        optional_text(r) == package_name(lexer::tokens(manifest@), 0),
{
    let code = Code::read(manifest);
    let mut i: usize = 0;
    while i < code.toks.len()
        invariant
            i <= code.toks.len(),
            code@.len() == code.toks.len(),
            code@ == lexer::tokens(manifest@),
            package_name(code@, 0) == package_name(code@, i as int),
        decreases code.toks.len() - i,
    {
        if code.toks.len() - i > 2 && code.is(i, "[") && code.is(i + 1, "package") && code.is(
            i + 2,
            "]",
        ) {
            return find_name(&code, i + 3);
        }
        i += 1;
    }
    None
}

/// The packages of a checkout, each with the directory of its manifest.
pub open spec fn packages_of(tree: Seq<(Seq<char>, Seq<char>)>) -> Seq<(Seq<char>, Seq<char>)>
    decreases tree.len(),
{
    if tree.len() == 0 {
        Seq::empty()
    } else {
        let rest = packages_of(tree.drop_last());
        let f = tree.last();
        match package_name(lexer::tokens(f.1), 0) {
            Some(name) if is_manifest(f.0) => rest.push((paths::parent(f.0), name)),
            _ => rest,
        }
    }
}

/// Finds the packages of a checkout.
pub fn find_packages(tree: &SourceTree) -> (r: Vec<Package>)
    ensures
        package_models(r@) == packages_of(tree@),
{
    let ghost all = tree@;
    let mut r: Vec<Package> = Vec::new();
    let mut i: usize = 0;
    assert(package_models(r@) =~= packages_of(all.take(0)));
    while i < tree.files.len()
        invariant
            i <= tree.files.len(),
            all == tree@,
            package_models(r@) == packages_of(all.take(i as int)),
        decreases tree.files.len() - i,
    {
        let ghost sofar = package_models(r@);
        proof {
            assert(all.take(i + 1).drop_last() =~= all.take(i as int));
            assert(all.take(i + 1).last() == all[i as int]);
            assert(all[i as int] == (tree.files@[i as int].path@, tree.files@[i as int].text@));
        }
        if names_manifest(tree.files[i].path.as_str()) {
            if let Some(name) = find_package_name(tree.files[i].text.as_str()) {
                let directory = parent_of(tree.files[i].path.as_str());
                let ghost row = (directory@, name@);
                r.push(Package { directory, name });
                assert(package_models(r@) =~= sofar.push(row));
            }
        }
        i += 1;
    }
    assert(all.take(i as int) =~= all);
    r
}

/// The word names the package: the two differ at most in `-` and `_`.
pub open spec fn names_package(word: Seq<char>, name: Seq<char>) -> bool {
    word.len() == name.len() && forall|i: int|
        0 <= i < name.len() ==> #[trigger] word[i] == if name[i] == '-' {
            '_'
        } else {
            name[i]
        }
}

fn is_package_word(word: &str, name: &str) -> (r: bool)
    ensures
        r == names_package(word@, name@),
{
    let n: usize = name.unicode_len();
    if word.unicode_len() != n {
        return false;
    }
    let mut i: usize = 0;
    while i < n
        invariant
            i <= n,
            n == name@.len(),
            n == word@.len(),
            forall|j: int|
                0 <= j < i ==> #[trigger] word@[j] == if name@[j] == '-' {
                    '_'
                } else {
                    name@[j]
                },
        decreases n - i,
    {
        let c: char = name.get_char(i);
        let wanted: char = if c == '-' {
            '_'
        } else {
            c
        };
        if word.get_char(i) != wanted {
            return false;
        }
        i += 1;
    }
    true
}

/// A path that begins with the word leads out of the workspace.
pub open spec fn is_foreign(word: Seq<char>, packages: Seq<(Seq<char>, Seq<char>)>) -> bool {
    &&& word != "crate"@
    &&& word != "self"@
    &&& word != "super"@
    &&& forall|i: int|
        0 <= i < packages.len() ==> !names_package(word, (#[trigger] packages[i]).1)
}

fn leads_out(word: &str, packages: &Vec<Package>) -> (r: bool)
    ensures
        r == is_foreign(word@, package_models(packages@)),
{
    if same_text(word, "crate") || same_text(word, "self") || same_text(word, "super") {
        return false;
    }
    let ghost all = package_models(packages@);
    let mut i: usize = 0;
    while i < packages.len()
        invariant
            i <= packages.len(),
            all == package_models(packages@),
            forall|j: int| 0 <= j < i ==> !names_package(word@, (#[trigger] all[j]).1),
        decreases packages.len() - i,
    {
        assert(all[i as int].1 == packages@[i as int].name@);
        if is_package_word(word, packages[i].name.as_str()) {
            return false;
        }
        i += 1;
    }
    true
}

/// The place of the first word of the path behind a `use`.
pub open spec fn root_place(toks: Seq<TokenModel>, i: int) -> int {
    if syntax::at(toks, i + 1, "::"@) {
        i + 2
    } else {
        i + 1
    }
}

/// The name at `k` in an import is one that the import makes known: nothing of
/// the path follows it, and it is not given another name.
pub open spec fn is_bound(toks: Seq<TokenModel>, k: int) -> bool {
    &&& syntax::word_at(toks, k)
    &&& !syntax::at(toks, k, "as"@)
    &&& !syntax::at(toks, k + 1, "::"@)
    &&& !syntax::at(toks, k + 1, "as"@)
}

/// The names that the places `lo..k` of an import make known.
pub open spec fn bound_below(toks: Seq<TokenModel>, lo: int, k: int) -> Seq<Seq<char>>
    decreases k - lo,
{
    if k <= lo {
        Seq::empty()
    } else {
        let rest = bound_below(toks, lo, k - 1);
        if is_bound(toks, k - 1) {
            rest.push(toks[k - 1].text)
        } else {
            rest
        }
    }
}

/// There is an import at `i` that takes its names from outside the workspace.
pub open spec fn imports_from_outside(
    toks: Seq<TokenModel>,
    packages: Seq<(Seq<char>, Seq<char>)>,
    i: int,
) -> bool {
    &&& syntax::at(toks, i, "use"@)
    &&& syntax::word_at(toks, root_place(toks, i))
    &&& is_foreign(toks[root_place(toks, i)].text, packages)
}

/// The names that the imports before `k` take from outside the workspace.
pub open spec fn foreign_below(
    toks: Seq<TokenModel>,
    packages: Seq<(Seq<char>, Seq<char>)>,
    k: nat,
) -> Seq<Seq<char>>
    decreases k,
{
    if k == 0 {
        Seq::empty()
    } else {
        let rest = foreign_below(toks, packages, (k - 1) as nat);
        if imports_from_outside(toks, packages, k - 1) {
            rest + bound_below(toks, k as int, syntax::find(toks, k as int, toks.len() as int, ";"@))
        } else {
            rest
        }
    }
}

/// The names that a file takes from outside the workspace.
pub open spec fn foreign_names(
    toks: Seq<TokenModel>,
    packages: Seq<(Seq<char>, Seq<char>)>,
) -> Seq<Seq<char>> {
    foreign_below(toks, packages, toks.len())
}

fn add_bound(code: &Code, lo: usize, hi: usize, out: &mut Vec<String>)
    requires
        lo <= hi <= code@.len(),
    ensures
        text::views(final(out)@) == text::views(old(out)@) + bound_below(
            code@,
            lo as int,
            hi as int,
        ),
{
    let ghost start = text::views(out@);
    let mut k: usize = lo;
    assert(start + bound_below(code@, lo as int, lo as int) =~= start);
    while k < hi
        invariant
            lo <= k <= hi <= code@.len(),
            code@.len() == code.toks.len(),
            text::views(out@) == start + bound_below(code@, lo as int, k as int),
        decreases hi - k,
    {
        let ghost sofar = text::views(out@);
        if code.is_word(k) && !code.is(k, "as") && !code.is(k + 1, "::") && !code.is(k + 1, "as") {
            out.push(token_text(code, k));
            proof {
                let name = code@[k as int].text;
                assert(text::views(out@) =~= sofar.push(name));
                assert(start + bound_below(code@, lo as int, k + 1) =~= (start + bound_below(
                    code@,
                    lo as int,
                    k as int,
                )).push(name));
            }
        }
        k += 1;
    }
}

/// Finds the names that a file takes from outside the workspace.
pub fn find_foreign_names(code: &Code, packages: &Vec<Package>) -> (r: Vec<String>)
    requires
        code.wf(),
    ensures
        text::views(r@) == foreign_names(code@, package_models(packages@)),
{
    let ghost pk = package_models(packages@);
    let n: usize = code.toks.len();
    let mut r: Vec<String> = Vec::new();
    let mut i: usize = 0;
    assert(text::views(r@) =~= foreign_below(code@, pk, 0));
    while i < n
        invariant
            i <= n,
            n == code@.len(),
            n == code.toks.len(),
            code.wf(),
            pk == package_models(packages@),
            text::views(r@) == foreign_below(code@, pk, i as nat),
        decreases n - i,
    {
        if code.is(i, "use") && i + 1 < n {
            let root: usize = if code.is(i + 1, "::") {
                i + 2
            } else {
                i + 1
            };
            if code.is_word(root) && leads_out(token_text(code, root).as_str(), packages) {
                let e: usize = code.find_place(i + 1, n, ";");
                add_bound(code, i + 1, e, &mut r);
            }
        }
        i += 1;
    }
    r
}

/// The package that a path belongs to: that of the innermost directory, and the
/// first of several there.
pub open spec fn package_at(packages: Seq<(Seq<char>, Seq<char>)>, path: Seq<char>) -> Option<int>
    decreases packages.len(),
{
    if packages.len() == 0 {
        None
    } else {
        let rest = package_at(packages.drop_last(), path);
        if paths::within(path, packages.last().0) && match rest {
            Some(i) => packages[i].0.len() < packages.last().0.len(),
            None => true,
        } {
            Some(packages.len() - 1)
        } else {
            rest
        }
    }
}

/// Finds the package that a path belongs to.
pub fn find_package(packages: &Vec<Package>, path: &str) -> (r: Option<usize>)
    ensures
        items::optional_place(r) == package_at(package_models(packages@), path@),
        r is Some ==> r->0 < packages.len(),
{
    let ghost all = package_models(packages@);
    let mut r: Option<usize> = None;
    let mut i: usize = 0;
    assert(all.take(0) =~= Seq::empty());
    while i < packages.len()
        invariant
            i <= packages.len(),
            all == package_models(packages@),
            items::optional_place(r) == package_at(all.take(i as int), path@),
            r is Some ==> r->0 < i,
        decreases packages.len() - i,
    {
        proof {
            assert(all.take(i + 1).drop_last() =~= all.take(i as int));
            assert(all.take(i + 1).last().0 == packages@[i as int].directory@);
        }
        if lies_within(path, packages[i].directory.as_str()) {
            let inner: bool = match r {
                Some(k) => {
                    assert(all.take(i + 1)[k as int].0 == packages@[k as int].directory@);
                    assert(all.take(i as int)[k as int].0 == packages@[k as int].directory@);
                    packages[k].directory.as_str().unicode_len()
                        < packages[i].directory.as_str().unicode_len()
                },
                None => true,
            };
            if inner {
                r = Some(i);
            }
        }
        i += 1;
    }
    assert(all.take(i as int) =~= all);
    r
}

/// One of the items is a type of the name.
pub open spec fn has_type(toks: Seq<TokenModel>, its: Seq<ItemModel>, name: Seq<char>) -> bool {
    exists|k: int|
        0 <= k < its.len() && (#[trigger] its[k]).kind != ItemKind::Function
            && toks[its[k].name].text == name
}

fn defines(file: &FileSyntax, name: &str) -> (r: bool)
    requires
        file.wf(),
    ensures
        r == has_type(file@.toks, items::file_items(file@.toks), name@),
{
    let ghost its = items::file_items(file@.toks);
    let mut i: usize = 0;
    while i < file.items.len()
        invariant
            i <= file.items.len(),
            file.wf(),
            its == items::file_items(file@.toks),
            its.len() == file.items.len(),
            forall|k: int|
                0 <= k < i ==> !((#[trigger] its[k]).kind != ItemKind::Function
                    && file@.toks[its[k].name].text == name@),
        decreases file.items.len() - i,
    {
        proof {
            assert(items::item_fits(file.code@, file.items@[i as int]));
            assert(its[i as int] == file.items@[i as int]@);
        }
        if file.items[i].kind != ItemKind::Function && same_text(
            token_text(&file.code, file.items[i].name).as_str(),
            name,
        ) {
            return true;
        }
        i += 1;
    }
    false
}

/// The type of the name in the first file of the package that has one.
pub open spec fn type_in(
    files: Seq<SyntaxModel>,
    packages: Seq<(Seq<char>, Seq<char>)>,
    package: Option<int>,
    name: Seq<char>,
) -> Option<Seq<char>>
    decreases files.len(),
{
    if files.len() == 0 {
        None
    } else {
        match type_in(files.drop_last(), packages, package, name) {
            Some(t) => Some(t),
            None => {
                let f = files.last();
                if package_at(packages, f.path) == package && has_type(
                    f.toks,
                    items::file_items(f.toks),
                    name,
                ) {
                    Some(graph::qualified(f.path, name))
                } else {
                    None
                }
            },
        }
    }
}

/// What a type name in a file stands for: nothing where the file takes the name
/// from outside the workspace, and the type of its own package otherwise.
pub open spec fn resolved(
    files: Seq<SyntaxModel>,
    packages: Seq<(Seq<char>, Seq<char>)>,
    m: SyntaxModel,
    name: Seq<char>,
) -> Option<Seq<char>> {
    if foreign_names(m.toks, packages).contains(name) {
        None
    } else {
        type_in(files, packages, package_at(packages, m.path), name)
    }
}

fn same_package(a: Option<usize>, b: Option<usize>) -> (r: bool)
    ensures
        r == (items::optional_place(a) == items::optional_place(b)),
{
    match (a, b) {
        (Some(x), Some(y)) => x == y,
        (None, None) => true,
        _ => false,
    }
}

fn find_type(
    files: &Vec<FileSyntax>,
    packages: &Vec<Package>,
    package: Option<usize>,
    name: &str,
) -> (r: Option<String>)
    requires
        graph::all_wf(files@),
    ensures
        optional_text(r) == type_in(
            graph::syntax_models(files@),
            package_models(packages@),
            items::optional_place(package),
            name@,
        ),
{
    let ghost all = graph::syntax_models(files@);
    let ghost pk = package_models(packages@);
    let ghost home = items::optional_place(package);
    let mut i: usize = 0;
    assert(all.take(0) =~= Seq::empty());
    while i < files.len()
        invariant
            i <= files.len(),
            graph::all_wf(files@),
            all == graph::syntax_models(files@),
            pk == package_models(packages@),
            home == items::optional_place(package),
            type_in(all.take(i as int), pk, home, name@) is None,
        decreases files.len() - i,
    {
        proof {
            assert(files@[i as int].wf());
            assert(all.take(i + 1).drop_last() =~= all.take(i as int));
            assert(all.take(i + 1).last() == files@[i as int]@);
        }
        let here = find_package(packages, files[i].path.as_str());
        if same_package(here, package) && defines(&files[i], name) {
            let mut r = files[i].path.clone();
            r.append("::");
            r.append(name);
            proof {
                type_in_is_settled(all, pk, home, name@, i + 1);
            }
            return Some(r);
        }
        i += 1;
    }
    assert(all.take(i as int) =~= all);
    None
}

proof fn type_in_is_settled(
    files: Seq<SyntaxModel>,
    packages: Seq<(Seq<char>, Seq<char>)>,
    package: Option<int>,
    name: Seq<char>,
    k: int,
)
    requires
        0 <= k <= files.len(),
        type_in(files.take(k), packages, package, name) is Some,
    ensures
        type_in(files, packages, package, name) == type_in(
            files.take(k),
            packages,
            package,
            name,
        ),
    decreases files.len(),
{
    if k < files.len() {
        assert(files.drop_last().take(k) =~= files.take(k));
        type_in_is_settled(files.drop_last(), packages, package, name, k);
    } else {
        assert(files.take(k) =~= files);
    }
}

/// A type name stands at `k` by itself, not in a path.
pub open spec fn is_type_name(toks: Seq<TokenModel>, k: int) -> bool {
    syntax::capital_at(toks, k) && !syntax::at(toks, k - 1, "::"@) && !syntax::at(
        toks,
        k + 1,
        "::"@,
    )
}

/// A type name in a function, and what it stands for.
#[derive(Debug)]
pub struct TypeReference {
    pub from: String,
    pub to_name: String,
    pub to_symbol: Option<String>,
}

/// What a [`TypeReference`] holds, as plain values.
#[verifier::ext_equal]
pub struct ReferenceModel {
    pub from: Seq<char>,
    pub to_name: Seq<char>,
    pub to_symbol: Option<Seq<char>>,
}

impl View for TypeReference {
    type V = ReferenceModel;

    open spec fn view(&self) -> ReferenceModel {
        ReferenceModel {
            from: self.from@,
            to_name: self.to_name@,
            to_symbol: optional_text(self.to_symbol),
        }
    }
}

pub open spec fn reference_models(rows: Seq<TypeReference>) -> Seq<ReferenceModel> {
    rows.map_values(|r: TypeReference| r@)
}

/// The type names in the places `lo..k` of a function.
pub open spec fn references_below(
    files: Seq<SyntaxModel>,
    packages: Seq<(Seq<char>, Seq<char>)>,
    m: SyntaxModel,
    it: ItemModel,
    k: int,
) -> Seq<ReferenceModel>
    decreases k - it.body_lo,
{
    if k <= it.body_lo {
        Seq::empty()
    } else {
        let rest = references_below(files, packages, m, it, k - 1);
        if is_type_name(m.toks, k - 1) {
            rest.push(
                ReferenceModel {
                    from: graph::qualified(m.path, m.toks[it.name].text),
                    to_name: m.toks[k - 1].text,
                    to_symbol: resolved(files, packages, m, m.toks[k - 1].text),
                },
            )
        } else {
            rest
        }
    }
}

/// The type names in the functions among the first `k` items of a file.
pub open spec fn file_references(
    files: Seq<SyntaxModel>,
    packages: Seq<(Seq<char>, Seq<char>)>,
    m: SyntaxModel,
    k: nat,
) -> Seq<ReferenceModel>
    decreases k,
{
    if k == 0 {
        Seq::empty()
    } else {
        let rest = file_references(files, packages, m, (k - 1) as nat);
        let it = items::file_items(m.toks)[k - 1];
        if it.kind == ItemKind::Function {
            rest + references_below(files, packages, m, it, it.body_hi)
        } else {
            rest
        }
    }
}

/// The type names in the functions of the first `k` files.
pub open spec fn references(
    files: Seq<SyntaxModel>,
    packages: Seq<(Seq<char>, Seq<char>)>,
    k: nat,
) -> Seq<ReferenceModel>
    decreases k,
{
    if k == 0 {
        Seq::empty()
    } else {
        references(files, packages, (k - 1) as nat) + file_references(
            files,
            packages,
            files[k - 1],
            items::file_items(files[k - 1].toks).len(),
        )
    }
}

fn add_references(
    files: &Vec<FileSyntax>,
    packages: &Vec<Package>,
    file: &FileSyntax,
    it: &Item,
    foreign: &Vec<String>,
    out: &mut Vec<TypeReference>,
)
    requires
        graph::all_wf(files@),
        file.wf(),
        items::item_fits(file.code@, *it),
        text::views(foreign@) == foreign_names(file@.toks, package_models(packages@)),
    ensures
        reference_models(final(out)@) == reference_models(old(out)@) + references_below(
            graph::syntax_models(files@),
            package_models(packages@),
            file@,
            it@,
            it@.body_hi,
        ),
{
    let ghost all = graph::syntax_models(files@);
    let ghost pk = package_models(packages@);
    let ghost start = reference_models(out@);
    let home = find_package(packages, file.path.as_str());
    let mut from = file.path.clone();
    from.append("::");
    from.append(token_text(&file.code, it.name).as_str());
    let mut k: usize = it.body_lo;
    assert(start + references_below(all, pk, file@, it@, it@.body_lo) =~= start);
    if it.body_lo > it.body_hi {
        assert(start + references_below(all, pk, file@, it@, it@.body_hi) =~= start);
        return;
    }
    while k < it.body_hi
        invariant
            it.body_lo <= k <= it.body_hi,
            graph::all_wf(files@),
            file.wf(),
            items::item_fits(file.code@, *it),
            all == graph::syntax_models(files@),
            pk == package_models(packages@),
            file.code@.len() == file.code.toks.len(),
            items::optional_place(home) == package_at(pk, file@.path),
            from@ == graph::qualified(file@.path, file@.toks[it@.name].text),
            text::views(foreign@) == foreign_names(file@.toks, pk),
            reference_models(out@) == start + references_below(all, pk, file@, it@, k as int),
        decreases it.body_hi - k,
    {
        let ghost sofar = reference_models(out@);
        let behind: bool = k > 0 && file.code.is(k - 1, "::");
        if file.code.is_capital(k) && !behind && !file.code.is(k + 1, "::") {
            let name = token_text(&file.code, k);
            let to_symbol: Option<String> = if contains_text(foreign, name.as_str()) {
                None
            } else {
                find_type(files, packages, home, name.as_str())
            };
            let row = TypeReference { from: from.clone(), to_name: name, to_symbol };
            let ghost made = row@;
            out.push(row);
            proof {
                assert(reference_models(out@) =~= sofar.push(made));
                assert(references_below(all, pk, file@, it@, k + 1) =~= references_below(
                    all,
                    pk,
                    file@,
                    it@,
                    k as int,
                ).push(made));
                assert(start + references_below(all, pk, file@, it@, k + 1) =~= sofar.push(made));
            }
        }
        k += 1;
    }
}

fn add_file_references(
    files: &Vec<FileSyntax>,
    packages: &Vec<Package>,
    file: &FileSyntax,
    out: &mut Vec<TypeReference>,
)
    requires
        graph::all_wf(files@),
        file.wf(),
    ensures
        reference_models(final(out)@) == reference_models(old(out)@) + file_references(
            graph::syntax_models(files@),
            package_models(packages@),
            file@,
            items::file_items(file@.toks).len(),
        ),
{
    let ghost all = graph::syntax_models(files@);
    let ghost pk = package_models(packages@);
    let ghost its = items::file_items(file@.toks);
    let ghost start = reference_models(out@);
    let foreign = find_foreign_names(&file.code, packages);
    let mut i: usize = 0;
    assert(start + file_references(all, pk, file@, 0) =~= start);
    while i < file.items.len()
        invariant
            i <= file.items.len(),
            graph::all_wf(files@),
            file.wf(),
            all == graph::syntax_models(files@),
            pk == package_models(packages@),
            its == items::file_items(file@.toks),
            its.len() == file.items.len(),
            text::views(foreign@) == foreign_names(file@.toks, pk),
            reference_models(out@) == start + file_references(all, pk, file@, i as nat),
        decreases file.items.len() - i,
    {
        proof {
            assert(items::item_fits(file.code@, file.items@[i as int]));
            assert(its[i as int] == file.items@[i as int]@);
        }
        if file.items[i].kind == ItemKind::Function {
            add_references(files, packages, file, &file.items[i], &foreign, out);
            proof {
                let it = its[i as int];
                let rest = file_references(all, pk, file@, i as nat);
                let more = references_below(all, pk, file@, it, it.body_hi);
                assert(start + rest + more =~= start + (rest + more));
            }
        }
        i += 1;
    }
}

/// Finds the type names in the functions of some files, and what each stands for.
pub fn find_type_references(files: &Vec<FileSyntax>, packages: &Vec<Package>) -> (r: Vec<
    TypeReference,
>)
    requires
        graph::all_wf(files@),
    ensures
        reference_models(r@) == references(
            graph::syntax_models(files@),
            package_models(packages@),
            files@.len(),
        ),
{
    let ghost all = graph::syntax_models(files@);
    let ghost pk = package_models(packages@);
    let mut r: Vec<TypeReference> = Vec::new();
    let mut i: usize = 0;
    assert(reference_models(r@) =~= references(all, pk, 0));
    while i < files.len()
        invariant
            i <= files.len(),
            graph::all_wf(files@),
            all == graph::syntax_models(files@),
            pk == package_models(packages@),
            reference_models(r@) == references(all, pk, i as nat),
        decreases files.len() - i,
    {
        proof {
            assert(files@[i as int].wf());
            assert(all[i as int] == files@[i as int]@);
        }
        add_file_references(files, packages, &files[i], &mut r);
        i += 1;
    }
    r
}

/// A name that a file takes from outside the workspace stands for no type of the
/// workspace, even where one has that name.
pub proof fn foreign_names_stay_unresolved(
    files: Seq<SyntaxModel>,
    packages: Seq<(Seq<char>, Seq<char>)>,
    m: SyntaxModel,
    name: Seq<char>,
)
    requires
        foreign_names(m.toks, packages).contains(name),
    ensures
        resolved(files, packages, m, name) is None,
{
}

/// A name that a file does not take from outside stands for a type of its package
/// wherever the package has one.
pub proof fn own_names_resolve(
    files: Seq<SyntaxModel>,
    packages: Seq<(Seq<char>, Seq<char>)>,
    m: SyntaxModel,
    name: Seq<char>,
    k: int,
)
    requires
        !foreign_names(m.toks, packages).contains(name),
        0 <= k < files.len(),
        package_at(packages, files[k].path) == package_at(packages, m.path),
        has_type(files[k].toks, items::file_items(files[k].toks), name),
    ensures
        resolved(files, packages, m, name) is Some,
    decreases files.len(),
{
    if k < files.len() - 1 {
        own_names_resolve(files.drop_last(), packages, m, name, k);
    }
}

} // verus!
