//! Who calls whom: the calls that functions write out, and those that go
//! through a message built in one function and handled in another.
use vstd::prelude::*;
use crate::dispatch;
use crate::dispatch::{find_calls, find_constructs, find_handles};
use crate::items;
use crate::items::{read_items, Item, ItemKind, ItemModel};
use crate::lexer;
use crate::lexer::TokenModel;
use crate::syntax::Code;
use crate::text;
use crate::text::same_text;
use crate::trace;

verus! {

/// A source file that has been read.
pub struct FileSyntax {
    pub path: String,
    pub code: Code,
    pub items: Vec<Item>,
}

/// What a [`FileSyntax`] rests on: its path and its tokens.
#[verifier::ext_equal]
pub struct SyntaxModel {
    pub path: Seq<char>,
    pub toks: Seq<TokenModel>,
}

impl View for FileSyntax {
    type V = SyntaxModel;

    open spec fn view(&self) -> SyntaxModel {
        SyntaxModel { path: self.path@, toks: self.code@ }
    }
}

impl FileSyntax {
    /// The items are those of the tokens.
    pub open spec fn wf(self) -> bool {
        &&& self.code.wf()
        &&& items::item_models(self.items@) == items::file_items(self.code@)
        &&& forall|i: int|
            0 <= i < self.items@.len() ==> items::item_fits(self.code@, #[trigger] self.items@[i])
    }

    /// Reads a source file.
    pub fn read(path: &str, source: &str) -> (r: FileSyntax)
        ensures
            r.wf(),
            r@.path == path@,
            r@.toks == lexer::tokens(source@),
    {
        let code = Code::read(source);
        let items = read_items(&code);
        FileSyntax { path: path.to_owned(), code, items }
    }
}

pub open spec fn syntax_models(rows: Seq<FileSyntax>) -> Seq<SyntaxModel> {
    rows.map_values(|r: FileSyntax| r@)
}

/// Every file is well formed.
pub open spec fn all_wf(rows: Seq<FileSyntax>) -> bool {
    forall|i: int| 0 <= i < rows.len() ==> (#[trigger] rows[i]).wf()
}

/// What an edge says.
#[derive(Clone, Copy, PartialEq, Eq, Structural, Debug)]
pub enum EdgeKind {
    /// The function calls something of this name.
    CallsName,
    /// The function builds the variant.
    DispatchConstruct,
    /// The function hands the variant to this call.
    DispatchHandle,
    /// The function reaches the other through the variant.
    Dispatches,
}

/// The name of a kind of edge.
pub open spec fn kind_name(kind: EdgeKind) -> Seq<char> {
    match kind {
        EdgeKind::CallsName => "calls_name"@,
        EdgeKind::DispatchConstruct => "dispatch_construct"@,
        EdgeKind::DispatchHandle => "dispatch_handle"@,
        EdgeKind::Dispatches => "dispatches"@,
    }
}

impl EdgeKind {
    /// The name of the kind.
    pub fn as_str(&self) -> (r: &'static str)
        ensures
            r@ == kind_name(*self),
    {
        match self {
            EdgeKind::CallsName => "calls_name",
            EdgeKind::DispatchConstruct => "dispatch_construct",
            EdgeKind::DispatchHandle => "dispatch_handle",
            EdgeKind::Dispatches => "dispatches",
        }
    }
}

/// An edge of the graph. The enum and the variant are empty where it has none.
pub struct EdgeRow {
    pub kind: EdgeKind,
    pub from: String,
    pub to: String,
    pub head: String,
    pub variant: String,
}

/// What an [`EdgeRow`] holds, as plain values.
#[verifier::ext_equal]
pub struct EdgeModel {
    pub kind: EdgeKind,
    pub from: Seq<char>,
    pub to: Seq<char>,
    pub head: Seq<char>,
    pub variant: Seq<char>,
}

impl View for EdgeRow {
    type V = EdgeModel;

    open spec fn view(&self) -> EdgeModel {
        EdgeModel {
            kind: self.kind,
            from: self.from@,
            to: self.to@,
            head: self.head@,
            variant: self.variant@,
        }
    }
}

pub open spec fn edge_models(rows: Seq<EdgeRow>) -> Seq<EdgeModel> {
    rows.map_values(|r: EdgeRow| r@)
}

/// The name that tells a symbol from those of other files.
pub open spec fn qualified(path: Seq<char>, name: Seq<char>) -> Seq<char> {
    path + "::"@ + name
}

/// A variant written out with its enum.
pub open spec fn variant_text(head: Seq<char>, variant: Seq<char>) -> Seq<char> {
    head + "::"@ + variant
}

/// The enum that a variant is written with: `Self` stands for the type that the
/// item belongs to.
pub open spec fn head_text(toks: Seq<TokenModel>, it: ItemModel, h: int) -> Seq<char> {
    if toks[h].text == "Self"@ && it.owner is Some {
        toks[it.owner->0].text
    } else {
        toks[h].text
    }
}

pub open spec fn call_edge(m: SyntaxModel, it: ItemModel, c: int) -> EdgeModel {
    EdgeModel {
        kind: EdgeKind::CallsName,
        from: qualified(m.path, m.toks[it.name].text),
        to: m.toks[c].text,
        head: Seq::empty(),
        variant: Seq::empty(),
    }
}

pub open spec fn construct_edge(m: SyntaxModel, it: ItemModel, v: (int, int)) -> EdgeModel {
    let head = head_text(m.toks, it, v.0);
    let variant = m.toks[v.1].text;
    EdgeModel {
        kind: EdgeKind::DispatchConstruct,
        from: qualified(m.path, m.toks[it.name].text),
        to: variant_text(head, variant),
        head,
        variant,
    }
}

pub open spec fn handle_edge(m: SyntaxModel, it: ItemModel, f: (int, int, int)) -> EdgeModel {
    EdgeModel {
        kind: EdgeKind::DispatchHandle,
        from: qualified(m.path, m.toks[it.name].text),
        to: m.toks[f.2].text,
        head: head_text(m.toks, it, f.0),
        variant: m.toks[f.1].text,
    }
}

/// What an item says: a function says what it calls, builds and handles.
pub open spec fn item_edges(m: SyntaxModel, it: ItemModel) -> Seq<EdgeModel> {
    if it.kind == ItemKind::Function {
        dispatch::calls(m.toks, it.body_lo, it.body_hi).map_values(|c: int| call_edge(m, it, c))
            + dispatch::constructs(m.toks, it.body_lo, it.body_hi).map_values(
            |v: (int, int)| construct_edge(m, it, v),
        ) + dispatch::handles(m.toks, it.body_lo, it.body_hi).map_values(
            |f: (int, int, int)| handle_edge(m, it, f),
        )
    } else {
        Seq::empty()
    }
}

/// What some items of a file say.
pub open spec fn items_edges(m: SyntaxModel, its: Seq<ItemModel>) -> Seq<EdgeModel>
    decreases its.len(),
{
    if its.len() == 0 {
        Seq::empty()
    } else {
        items_edges(m, its.drop_last()) + item_edges(m, its.last())
    }
}

/// What the files say.
pub open spec fn facts(files: Seq<SyntaxModel>) -> Seq<EdgeModel>
    decreases files.len(),
{
    if files.len() == 0 {
        Seq::empty()
    } else {
        facts(files.drop_last()) + items_edges(
            files.last(),
            items::file_items(files.last().toks),
        )
    }
}

/// The names of some items of one kind.
pub open spec fn item_names(toks: Seq<TokenModel>, its: Seq<ItemModel>, kind: ItemKind) -> Seq<
    Seq<char>,
>
    decreases its.len(),
{
    if its.len() == 0 {
        Seq::empty()
    } else {
        let rest = item_names(toks, its.drop_last(), kind);
        if its.last().kind == kind {
            rest.push(toks[its.last().name].text)
        } else {
            rest
        }
    }
}

/// The names of all items of one kind.
pub open spec fn names_of(files: Seq<SyntaxModel>, kind: ItemKind) -> Seq<Seq<char>>
    decreases files.len(),
{
    if files.len() == 0 {
        Seq::empty()
    } else {
        names_of(files.drop_last(), kind) + item_names(
            files.last().toks,
            items::file_items(files.last().toks),
            kind,
        )
    }
}

/// The name occurs more than once.
pub open spec fn is_ambiguous(names: Seq<Seq<char>>, name: Seq<char>) -> bool {
    exists|i: int, j: int|
        0 <= i < j < names.len() && #[trigger] names[i] == name && #[trigger] names[j] == name
}

/// The one edge says that a variant is built, the other that it is handled.
pub open spec fn joins(c: EdgeModel, h: EdgeModel) -> bool {
    &&& c.kind == EdgeKind::DispatchConstruct
    &&& h.kind == EdgeKind::DispatchHandle
    &&& c.head == h.head
    &&& c.variant == h.variant
}

/// The way through a variant is shown: its enum is not one of two of that name,
/// and the call is of a function that is there.
pub open spec fn is_admitted(
    c: EdgeModel,
    h: EdgeModel,
    enums: Seq<Seq<char>>,
    functions: Seq<Seq<char>>,
) -> bool {
    joins(c, h) && !is_ambiguous(enums, c.head) && functions.contains(h.to)
}

/// The edge from the function that builds the variant to the one that handles it.
pub open spec fn dispatch_edge(c: EdgeModel, h: EdgeModel) -> EdgeModel {
    EdgeModel {
        kind: EdgeKind::Dispatches,
        from: c.from,
        to: h.to,
        head: c.head,
        variant: c.variant,
    }
}

/// An edge through a variant that two of the facts make.
pub open spec fn is_made(
    e: EdgeModel,
    data: Seq<EdgeModel>,
    enums: Seq<Seq<char>>,
    functions: Seq<Seq<char>>,
) -> bool {
    exists|i: int, j: int|
        0 <= i < data.len() && 0 <= j < data.len() && #[trigger] is_admitted(
            data[i],
            data[j],
            enums,
            functions,
        ) && e == dispatch_edge(data[i], data[j])
}

/// All the edges that facts make, each once.
pub open spec fn is_dispatch_list(
    d: Seq<EdgeModel>,
    data: Seq<EdgeModel>,
    enums: Seq<Seq<char>>,
    functions: Seq<Seq<char>>,
) -> bool {
    &&& d.no_duplicates()
    &&& forall|k: int| 0 <= k < d.len() ==> is_made(#[trigger] d[k], data, enums, functions)
    &&& forall|i: int, j: int|
        0 <= i < data.len() && 0 <= j < data.len() && #[trigger] is_admitted(
            data[i],
            data[j],
            enums,
            functions,
        ) ==> d.contains(dispatch_edge(data[i], data[j]))
}

/// The edges of some files: what they say, and the ways through variants.
pub open spec fn is_graph(edges: Seq<EdgeModel>, files: Seq<SyntaxModel>) -> bool {
    let data = facts(files);
    &&& edges.len() >= data.len()
    &&& edges.take(data.len() as int) == data
    &&& is_dispatch_list(
        edges.skip(data.len() as int),
        data,
        names_of(files, ItemKind::Enum),
        names_of(files, ItemKind::Function),
    )
}

/// The text of the token at `i`.
pub fn token_text(code: &Code, i: usize) -> (r: String)
    requires
        i < code@.len(),
    ensures
        r@ == code@[i as int].text,
{
    assert(code@[i as int] == code.toks@[i as int]@);
    code.toks[i].text.clone()
}

fn joined_text(a: &str, b: &str) -> (r: String)
    ensures
        r@ == a@ + "::"@ + b@,
{
    let mut r = a.to_owned();
    r.append("::");
    r.append(b);
    r
}

fn read_head(file: &FileSyntax, it: &Item, h: usize) -> (r: String)
    requires
        items::item_fits(file.code@, *it),
        h < file.code@.len(),
    ensures
        r@ == head_text(file.code@, it@, h as int),
{
    let written = token_text(&file.code, h);
    if same_text(written.as_str(), "Self") {
        if let Some(o) = it.owner {
            return token_text(&file.code, o);
        }
    }
    written
}

fn add_call_edges(file: &FileSyntax, it: &Item, out: &mut Vec<EdgeRow>)
    requires
        file.wf(),
        items::item_fits(file.code@, *it),
    ensures
        edge_models(final(out)@) == edge_models(old(out)@) + dispatch::calls(
            file@.toks,
            it@.body_lo,
            it@.body_hi,
        ).map_values(|c: int| call_edge(file@, it@, c)),
{
    let found = find_calls(&file.code, it.body_lo, it.body_hi);
    let from = joined_text(file.path.as_str(), token_text(&file.code, it.name).as_str());
    let ghost start = edge_models(out@);
    let ghost rows = trace::places(found@).map_values(|c: int| call_edge(file@, it@, c));
    let mut i: usize = 0;
    assert(start + rows.take(0) =~= start);
    while i < found.len()
        invariant
            i <= found.len(),
            file.wf(),
            items::item_fits(file.code@, *it),
            trace::places_fit(file.code@, found@),
            from@ == qualified(file@.path, file@.toks[it@.name].text),
            rows == trace::places(found@).map_values(|c: int| call_edge(file@, it@, c)),
            edge_models(out@) == start + rows.take(i as int),
        decreases found.len() - i,
    {
        let e = EdgeRow {
            kind: EdgeKind::CallsName,
            from: from.clone(),
            to: token_text(&file.code, found[i]),
            head: String::new(),
            variant: String::new(),
        };
        let ghost sofar = edge_models(out@);
        out.push(e);
        proof {
            assert(e@ == rows[i as int]);
            assert(edge_models(out@) =~= sofar.push(e@));
            assert(start + rows.take(i + 1) =~= (start + rows.take(i as int)).push(
                rows[i as int],
            ));
        }
        i += 1;
    }
    assert(rows.take(i as int) =~= rows);
}

fn add_construct_edges(file: &FileSyntax, it: &Item, out: &mut Vec<EdgeRow>)
    requires
        file.wf(),
        items::item_fits(file.code@, *it),
    ensures
        edge_models(final(out)@) == edge_models(old(out)@) + dispatch::constructs(
            file@.toks,
            it@.body_lo,
            it@.body_hi,
        ).map_values(|v: (int, int)| construct_edge(file@, it@, v)),
{
    let found = find_constructs(&file.code, it.body_lo, it.body_hi);
    let from = joined_text(file.path.as_str(), token_text(&file.code, it.name).as_str());
    let ghost start = edge_models(out@);
    let ghost rows = dispatch::variant_models(found@).map_values(
        |v: (int, int)| construct_edge(file@, it@, v),
    );
    let mut i: usize = 0;
    assert(start + rows.take(0) =~= start);
    while i < found.len()
        invariant
            i <= found.len(),
            file.wf(),
            items::item_fits(file.code@, *it),
            dispatch::variants_fit(file.code@, found@),
            from@ == qualified(file@.path, file@.toks[it@.name].text),
            rows == dispatch::variant_models(found@).map_values(
                |v: (int, int)| construct_edge(file@, it@, v),
            ),
            edge_models(out@) == start + rows.take(i as int),
        decreases found.len() - i,
    {
        let (h, v) = found[i];
        let head = read_head(file, it, h);
        let variant = token_text(&file.code, v);
        let e = EdgeRow {
            kind: EdgeKind::DispatchConstruct,
            from: from.clone(),
            to: joined_text(head.as_str(), variant.as_str()),
            head,
            variant,
        };
        let ghost sofar = edge_models(out@);
        out.push(e);
        proof {
            assert(dispatch::variant_models(found@)[i as int] == (h as int, v as int));
            assert(e@ == rows[i as int]);
            assert(edge_models(out@) =~= sofar.push(e@));
            assert(start + rows.take(i + 1) =~= (start + rows.take(i as int)).push(
                rows[i as int],
            ));
        }
        i += 1;
    }
    assert(rows.take(i as int) =~= rows);
}

fn add_handle_edges(file: &FileSyntax, it: &Item, out: &mut Vec<EdgeRow>)
    requires
        file.wf(),
        items::item_fits(file.code@, *it),
    ensures
        edge_models(final(out)@) == edge_models(old(out)@) + dispatch::handles(
            file@.toks,
            it@.body_lo,
            it@.body_hi,
        ).map_values(|f: (int, int, int)| handle_edge(file@, it@, f)),
{
    let found = find_handles(&file.code, it.body_lo, it.body_hi);
    let from = joined_text(file.path.as_str(), token_text(&file.code, it.name).as_str());
    let ghost start = edge_models(out@);
    let ghost rows = dispatch::handle_models(found@).map_values(
        |f: (int, int, int)| handle_edge(file@, it@, f),
    );
    let mut i: usize = 0;
    assert(start + rows.take(0) =~= start);
    while i < found.len()
        invariant
            i <= found.len(),
            file.wf(),
            items::item_fits(file.code@, *it),
            dispatch::handles_fit(file.code@, found@),
            from@ == qualified(file@.path, file@.toks[it@.name].text),
            rows == dispatch::handle_models(found@).map_values(
                |f: (int, int, int)| handle_edge(file@, it@, f),
            ),
            edge_models(out@) == start + rows.take(i as int),
        decreases found.len() - i,
    {
        let (h, v, c) = found[i];
        let e = EdgeRow {
            kind: EdgeKind::DispatchHandle,
            from: from.clone(),
            to: token_text(&file.code, c),
            head: read_head(file, it, h),
            variant: token_text(&file.code, v),
        };
        let ghost sofar = edge_models(out@);
        out.push(e);
        proof {
            assert(dispatch::handle_models(found@)[i as int] == (h as int, v as int, c as int));
            assert(e@ == rows[i as int]);
            assert(edge_models(out@) =~= sofar.push(e@));
            assert(start + rows.take(i + 1) =~= (start + rows.take(i as int)).push(
                rows[i as int],
            ));
        }
        i += 1;
    }
    assert(rows.take(i as int) =~= rows);
}

fn add_item_edges(file: &FileSyntax, it: &Item, out: &mut Vec<EdgeRow>)
    requires
        file.wf(),
        items::item_fits(file.code@, *it),
    ensures
        edge_models(final(out)@) == edge_models(old(out)@) + item_edges(file@, it@),
{
    if it.kind == ItemKind::Function {
        let ghost start = edge_models(out@);
        add_call_edges(file, it, out);
        add_construct_edges(file, it, out);
        add_handle_edges(file, it, out);
        assert(edge_models(out@) =~= start + item_edges(file@, it@));
    } else {
        assert(edge_models(out@) + Seq::<EdgeModel>::empty() =~= edge_models(out@));
    }
}

/// What the files say.
pub fn read_facts(files: &Vec<FileSyntax>) -> (r: Vec<EdgeRow>)
    requires
        all_wf(files@),
    ensures
        edge_models(r@) == facts(syntax_models(files@)),
{
    let ghost all = syntax_models(files@);
    let mut r: Vec<EdgeRow> = Vec::new();
    let mut f: usize = 0;
    proof {
        assert(all.take(0) =~= Seq::empty());
        assert(edge_models(r@) =~= Seq::empty());
    }
    while f < files.len()
        invariant
            f <= files.len(),
            all_wf(files@),
            all == syntax_models(files@),
            edge_models(r@) == facts(all.take(f as int)),
        decreases files.len() - f,
    {
        let file = &files[f];
        let ghost its = items::item_models(file.items@);
        let ghost start = edge_models(r@);
        let mut i: usize = 0;
        proof {
            assert(its.take(0) =~= Seq::empty());
            assert(start + items_edges(file@, its.take(0)) =~= start);
        }
        while i < file.items.len()
            invariant
                i <= file.items.len(),
                file.wf(),
                its == items::item_models(file.items@),
                edge_models(r@) == start + items_edges(file@, its.take(i as int)),
            decreases file.items.len() - i,
        {
            let it = file.items[i];
            add_item_edges(file, &it, &mut r);
            proof {
                assert(its.take(i + 1).drop_last() =~= its.take(i as int));
                assert(its.take(i + 1).last() == it@);
                let a = items_edges(file@, its.take(i as int));
                let b = item_edges(file@, it@);
                assert((start + a) + b =~= start + (a + b));
            }
            i += 1;
        }
        proof {
            assert(its.take(i as int) =~= its);
            assert(all.take(f + 1).drop_last() =~= all.take(f as int));
            assert(all.take(f + 1).last() == file@);
        }
        f += 1;
    }
    assert(all.take(f as int) =~= all);
    r
}

fn read_names(files: &Vec<FileSyntax>, kind: ItemKind) -> (r: Vec<String>)
    requires
        all_wf(files@),
    ensures
        text::views(r@) == names_of(syntax_models(files@), kind),
{
    let ghost all = syntax_models(files@);
    let mut r: Vec<String> = Vec::new();
    let mut f: usize = 0;
    proof {
        assert(all.take(0) =~= Seq::empty());
        assert(text::views(r@) =~= Seq::empty());
    }
    while f < files.len()
        invariant
            f <= files.len(),
            all_wf(files@),
            all == syntax_models(files@),
            text::views(r@) == names_of(all.take(f as int), kind),
        decreases files.len() - f,
    {
        let file = &files[f];
        let ghost its = items::item_models(file.items@);
        let ghost start = text::views(r@);
        let mut i: usize = 0;
        proof {
            assert(its.take(0) =~= Seq::empty());
            assert(start + item_names(file@.toks, its.take(0), kind) =~= start);
        }
        while i < file.items.len()
            invariant
                i <= file.items.len(),
                file.wf(),
                its == items::item_models(file.items@),
                text::views(r@) == start + item_names(file@.toks, its.take(i as int), kind),
            decreases file.items.len() - i,
        {
            let it = file.items[i];
            proof {
                assert(its.take(i + 1).drop_last() =~= its.take(i as int));
                assert(its.take(i + 1).last() == it@);
            }
            if it.kind == kind {
                let ghost sofar = text::views(r@);
                let name = token_text(&file.code, it.name);
                r.push(name);
                proof {
                    assert(text::views(r@) =~= sofar.push(name@));
                    let a = item_names(file@.toks, its.take(i as int), kind);
                    assert((start + a).push(name@) =~= start + a.push(name@));
                }
            }
            i += 1;
        }
        proof {
            assert(its.take(i as int) =~= its);
            assert(all.take(f + 1).drop_last() =~= all.take(f as int));
            assert(all.take(f + 1).last() == file@);
        }
        f += 1;
    }
    assert(all.take(f as int) =~= all);
    r
}

fn occurs_twice(names: &Vec<String>, name: &String) -> (r: bool)
    ensures
        r == is_ambiguous(text::views(names@), name@),
{
    let ghost all = text::views(names@);
    let mut first: Option<usize> = None;
    let mut i: usize = 0;
    while i < names.len()
        invariant
            i <= names.len(),
            all == text::views(names@),
            match first {
                Some(k) => k < i && all[k as int] == name@ && forall|j: int|
                    0 <= j < i && #[trigger] all[j] == name@ ==> j == k,
                None => forall|j: int| 0 <= j < i ==> #[trigger] all[j] != name@,
            },
        decreases names.len() - i,
    {
        assert(all[i as int] == names@[i as int]@);
        if names[i] == *name {
            if let Some(k) = first {
                assert(all[k as int] == name@ && all[i as int] == name@);
                return true;
            }
            first = Some(i);
        }
        i += 1;
    }
    false
}

fn has_text(names: &Vec<String>, name: &String) -> (r: bool)
    ensures
        r == text::views(names@).contains(name@),
{
    let ghost all = text::views(names@);
    let mut i: usize = 0;
    while i < names.len()
        invariant
            i <= names.len(),
            all == text::views(names@),
            forall|j: int| 0 <= j < i ==> #[trigger] all[j] != name@,
        decreases names.len() - i,
    {
        assert(all[i as int] == names@[i as int]@);
        if names[i] == *name {
            return true;
        }
        i += 1;
    }
    false
}

fn has_edge(edges: &Vec<EdgeRow>, e: &EdgeRow) -> (r: bool)
    ensures
        r == edge_models(edges@).contains(e@),
{
    let ghost all = edge_models(edges@);
    let mut i: usize = 0;
    while i < edges.len()
        invariant
            i <= edges.len(),
            all == edge_models(edges@),
            forall|j: int| 0 <= j < i ==> #[trigger] all[j] != e@,
        decreases edges.len() - i,
    {
        assert(all[i as int] == edges@[i as int]@);
        if edges[i].kind == e.kind && edges[i].from == e.from && edges[i].to == e.to
            && edges[i].head == e.head && edges[i].variant == e.variant {
            assert(all[i as int] =~= e@);
            return true;
        }
        i += 1;
    }
    false
}

/// The ways through variants that some facts make, each once.
pub fn synthesize_dispatch_edges(
    data: &Vec<EdgeRow>,
    enums: &Vec<String>,
    functions: &Vec<String>,
) -> (r: Vec<EdgeRow>)
    ensures
        is_dispatch_list(
            edge_models(r@),
            edge_models(data@),
            text::views(enums@),
            text::views(functions@),
        ),
{
    let ghost dm = edge_models(data@);
    let ghost em = text::views(enums@);
    let ghost fm = text::views(functions@);
    let mut r: Vec<EdgeRow> = Vec::new();
    let mut i: usize = 0;
    while i < data.len()
        invariant
            i <= data.len(),
            dm == edge_models(data@),
            em == text::views(enums@),
            fm == text::views(functions@),
            edge_models(r@).no_duplicates(),
            forall|k: int|
                0 <= k < edge_models(r@).len() ==> is_made(#[trigger] edge_models(r@)[k], dm, em, fm),
            forall|x: int, y: int|
                0 <= x < i && 0 <= y < dm.len() && #[trigger] is_admitted(dm[x], dm[y], em, fm)
                    ==> edge_models(r@).contains(dispatch_edge(dm[x], dm[y])),
        decreases data.len() - i,
    {
        let c = &data[i];
        assert(dm[i as int] == c@);
        let open: bool = c.kind == EdgeKind::DispatchConstruct && !occurs_twice(enums, &c.head);
        let mut j: usize = 0;
        while j < data.len()
            invariant
                i < data.len(),
                j <= data.len(),
                dm == edge_models(data@),
                em == text::views(enums@),
                fm == text::views(functions@),
                dm[i as int] == c@,
                open == (c@.kind == EdgeKind::DispatchConstruct && !is_ambiguous(em, c@.head)),
                edge_models(r@).no_duplicates(),
                forall|k: int|
                    0 <= k < edge_models(r@).len() ==> is_made(
                        #[trigger] edge_models(r@)[k],
                        dm,
                        em,
                        fm,
                    ),
                forall|x: int, y: int|
                    0 <= x < i && 0 <= y < dm.len() && #[trigger] is_admitted(
                        dm[x],
                        dm[y],
                        em,
                        fm,
                    ) ==> edge_models(r@).contains(dispatch_edge(dm[x], dm[y])),
                forall|y: int|
                    0 <= y < j && #[trigger] is_admitted(dm[i as int], dm[y], em, fm)
                        ==> edge_models(r@).contains(dispatch_edge(dm[i as int], dm[y])),
            decreases data.len() - j,
        {
            let h = &data[j];
            assert(dm[j as int] == h@);
            if open && h.kind == EdgeKind::DispatchHandle && h.head == c.head && h.variant
                == c.variant && has_text(functions, &h.to) {
                let e = EdgeRow {
                    kind: EdgeKind::Dispatches,
                    from: c.from.clone(),
                    to: h.to.clone(),
                    head: c.head.clone(),
                    variant: c.variant.clone(),
                };
                assert(is_admitted(dm[i as int], dm[j as int], em, fm));
                assert(e@ == dispatch_edge(dm[i as int], dm[j as int]));
                if !has_edge(&r, &e) {
                    let ghost sofar = edge_models(r@);
                    r.push(e);
                    proof {
                        let now = edge_models(r@);
                        assert(now =~= sofar.push(e@));
                        assert(now.no_duplicates()) by {
                            assert forall|x: int, y: int|
                                0 <= x < now.len() && 0 <= y < now.len() && x != y implies now[x]
                                != now[y] by {
                                if x == sofar.len() {
                                    assert(sofar.contains(now[y])) by {
                                        assert(sofar[y] == now[y]);
                                    }
                                } else if y == sofar.len() {
                                    assert(sofar.contains(now[x])) by {
                                        assert(sofar[x] == now[x]);
                                    }
                                } else {
                                    assert(sofar[x] == now[x] && sofar[y] == now[y]);
                                }
                            }
                        }
                        assert forall|k: int| 0 <= k < now.len() implies is_made(
                            #[trigger] now[k],
                            dm,
                            em,
                            fm,
                        ) by {
                            if k < sofar.len() {
                                assert(now[k] == sofar[k]);
                            }
                        }
                        assert forall|q: EdgeModel| #[trigger]
                            sofar.contains(q) implies now.contains(q) by {
                            let m = choose|m: int| 0 <= m < sofar.len() && sofar[m] == q;
                            assert(now[m] == q);
                        }
                        assert(now[sofar.len() as int] == e@);
                    }
                }
            }
            j += 1;
        }
        i += 1;
    }
    r
}

/// The graph of some files.
pub struct Graph {
    pub edges: Vec<EdgeRow>,
}

/// Builds the graph of some files.
pub fn build_graph(files: &Vec<FileSyntax>) -> (r: Graph)
    requires
        all_wf(files@),
    ensures
        is_graph(edge_models(r.edges@), syntax_models(files@)),
{
    let mut edges = read_facts(files);
    let enums = read_names(files, ItemKind::Enum);
    let functions = read_names(files, ItemKind::Function);
    let mut made = synthesize_dispatch_edges(&edges, &enums, &functions);
    let ghost data = edge_models(edges@);
    let ghost d = edge_models(made@);
    edges.append(&mut made);
    proof {
        assert(edge_models(edges@) =~= data + d);
        assert(edge_models(edges@).take(data.len() as int) =~= data);
        assert(edge_models(edges@).skip(data.len() as int) =~= d);
    }
    Graph { edges }
}

/// The edge is a real one and not a fact that others are made from.
pub open spec fn is_shown(e: EdgeModel) -> bool {
    e.kind != EdgeKind::DispatchConstruct && e.kind != EdgeKind::DispatchHandle
}

/// Someone who calls a function, and how.
#[derive(Debug)]
pub struct GraphHop {
    pub edge_kind: String,
    pub from_symbol: Option<String>,
    pub evidence: Option<String>,
}

/// What a [`GraphHop`] holds, as plain values.
#[verifier::ext_equal]
pub struct HopModel {
    pub edge_kind: Seq<char>,
    pub from_symbol: Option<Seq<char>>,
    pub evidence: Option<Seq<char>>,
}

pub open spec fn hop_model(h: GraphHop) -> HopModel {
    HopModel {
        edge_kind: h.edge_kind@,
        from_symbol: match h.from_symbol {
            Some(s) => Some(s@),
            None => None,
        },
        evidence: match h.evidence {
            Some(s) => Some(s@),
            None => None,
        },
    }
}

pub open spec fn hop_models(rows: Seq<GraphHop>) -> Seq<HopModel> {
    rows.map_values(|h: GraphHop| hop_model(h))
}

/// The edge as a caller sees it: one through a variant names the variant.
pub open spec fn hop_of(e: EdgeModel) -> HopModel {
    HopModel {
        edge_kind: kind_name(e.kind),
        from_symbol: Some(e.from),
        evidence: if e.kind == EdgeKind::Dispatches {
            Some(variant_text(e.head, e.variant))
        } else {
            None
        },
    }
}

/// Those who call something of this name.
pub open spec fn callers(edges: Seq<EdgeModel>, name: Seq<char>) -> Seq<HopModel> {
    edges.filter(|e: EdgeModel| is_shown(e) && e.to == name).map_values(|e: EdgeModel| hop_of(e))
}

/// Those who call something of this name, at most `limit` of them.
pub fn find_callers(graph: &Graph, name: &str, limit: usize) -> (r: Vec<GraphHop>)
    ensures
        ({
            let all = callers(edge_models(graph.edges@), name@);
            hop_models(r@) == all.take(
                if limit < all.len() {
                    limit as int
                } else {
                    all.len() as int
                },
            )
        }),
{
    let ghost all = edge_models(graph.edges@);
    let ghost fits = |e: EdgeModel| is_shown(e) && e.to == name@;
    let ghost seen = |e: EdgeModel| hop_of(e);
    let wanted = name.to_owned();
    let mut r: Vec<GraphHop> = Vec::new();
    let mut i: usize = 0;
    proof {
        reveal(Seq::filter);
        assert(all.take(0).filter(fits).map_values(seen) =~= Seq::empty());
        assert(hop_models(r@) =~= Seq::empty());
    }
    while i < graph.edges.len()
        invariant
            i <= graph.edges.len(),
            all == edge_models(graph.edges@),
            fits == (|e: EdgeModel| is_shown(e) && e.to == name@),
            seen == (|e: EdgeModel| hop_of(e)),
            wanted@ == name@,
            hop_models(r@) == all.take(i as int).filter(fits).map_values(seen),
        decreases graph.edges.len() - i,
    {
        let e = &graph.edges[i];
        let ghost sofar = all.take(i as int).filter(fits);
        proof {
            assert(all.take(i + 1).drop_last() =~= all.take(i as int));
            assert(all.take(i + 1).last() == e@);
            reveal(Seq::filter);
        }
        if e.kind != EdgeKind::DispatchConstruct && e.kind != EdgeKind::DispatchHandle && e.to
            == wanted {
            let evidence: Option<String> = if e.kind == EdgeKind::Dispatches {
                Some(joined_text(e.head.as_str(), e.variant.as_str()))
            } else {
                None
            };
            let hop = GraphHop {
                edge_kind: e.kind.as_str().to_owned(),
                from_symbol: Some(e.from.clone()),
                evidence,
            };
            let ghost old_r = hop_models(r@);
            r.push(hop);
            proof {
                assert(hop_models(r@) =~= old_r.push(hop_model(hop)));
                assert(hop_model(hop) =~= hop_of(e@));
                assert(sofar.push(e@).map_values(seen) =~= sofar.map_values(seen).push(
                    hop_of(e@),
                ));
            }
        }
        i += 1;
    }
    assert(all.take(i as int) =~= all);
    let ghost full = hop_models(r@);
    if limit < r.len() {
        r.truncate(limit);
    }
    assert(hop_models(r@) =~= full.take(
        if limit < full.len() {
            limit as int
        } else {
            full.len() as int
        },
    ));
    r
}

/// How many edges of a kind there are.
pub open spec fn kind_count(edges: Seq<EdgeModel>, kind: EdgeKind) -> nat
    decreases edges.len(),
{
    if edges.len() == 0 {
        0
    } else {
        kind_count(edges.drop_last(), kind) + if edges.last().kind == kind {
            1nat
        } else {
            0
        }
    }
}

/// How many edges of a kind the graph holds.
pub fn count_edges_data(graph: &Graph, kind: EdgeKind) -> (r: usize)
    ensures
        r == kind_count(edge_models(graph.edges@), kind),
{
    let ghost all = edge_models(graph.edges@);
    let mut r: usize = 0;
    let mut i: usize = 0;
    while i < graph.edges.len()
        invariant
            i <= graph.edges.len(),
            all == edge_models(graph.edges@),
            r == kind_count(all.take(i as int), kind),
            r <= i,
        decreases graph.edges.len() - i,
    {
        proof {
            assert(all.take(i + 1).drop_last() =~= all.take(i as int));
            assert(all.take(i + 1).last() == graph.edges@[i as int]@);
        }
        if graph.edges[i].kind == kind {
            r += 1;
        }
        i += 1;
    }
    assert(all.take(i as int) =~= all);
    r
}

/// How many edges of a kind the graph shows.
pub fn count_edges_shown(graph: &Graph, kind: EdgeKind) -> (r: usize)
    ensures
        r == if kind == EdgeKind::DispatchConstruct || kind == EdgeKind::DispatchHandle {
            0
        } else {
            kind_count(edge_models(graph.edges@), kind)
        },
{
    if kind == EdgeKind::DispatchConstruct || kind == EdgeKind::DispatchHandle {
        0
    } else {
        count_edges_data(graph, kind)
    }
}

/// Who calls a function never depends on the facts themselves, only on calls and
/// on the ways through variants.
pub proof fn facts_are_hidden(e: EdgeModel)
    requires
        e.kind == EdgeKind::DispatchConstruct || e.kind == EdgeKind::DispatchHandle,
    ensures
        forall|edges: Seq<EdgeModel>, name: Seq<char>| #[trigger]
            callers(edges.push(e), name) == callers(edges, name),
{
    assert forall|edges: Seq<EdgeModel>, name: Seq<char>| #[trigger]
        callers(edges.push(e), name) == callers(edges, name) by {
        reveal(Seq::filter);
        assert(edges.push(e).drop_last() =~= edges);
    }
}

/// No way is shown through a variant of an enum whose name two enums have.
pub proof fn ambiguous_enums_are_left_out(
    d: Seq<EdgeModel>,
    data: Seq<EdgeModel>,
    enums: Seq<Seq<char>>,
    functions: Seq<Seq<char>>,
    k: int,
)
    requires
        is_dispatch_list(d, data, enums, functions),
        0 <= k < d.len(),
    ensures
        !is_ambiguous(enums, d[k].head),
        functions.contains(d[k].to),
        d[k].kind == EdgeKind::Dispatches,
{
    assert(is_made(d[k], data, enums, functions));
}

} // verus!
