//! The items of a source file: its functions and its types.
use vstd::prelude::*;
use crate::lexer::TokenModel;
use crate::syntax;
use crate::syntax::Code;

verus! {

broadcast use crate::syntax::group_places;

/// What an item is.
#[derive(Clone, Copy, PartialEq, Eq, Structural, Debug)]
pub enum ItemKind {
    Function,
    Enum,
    Struct,
}

/// An item: the places of its name, of the type that its `impl` or `trait` is
/// of, of its first token and of its body, and the place behind it.
#[derive(Clone, Copy, PartialEq, Eq, Structural, Debug)]
pub struct Item {
    pub kind: ItemKind,
    pub name: usize,
    pub owner: Option<usize>,
    pub first: usize,
    pub body_lo: usize,
    pub body_hi: usize,
    pub last: usize,
}

/// What an [`Item`] holds, as plain values.
#[verifier::ext_equal]
pub struct ItemModel {
    pub kind: ItemKind,
    pub name: int,
    pub owner: Option<int>,
    pub first: int,
    pub body_lo: int,
    pub body_hi: int,
    pub last: int,
}

/// A place that may be missing.
pub open spec fn optional_place(p: Option<usize>) -> Option<int> {
    match p {
        Some(i) => Some(i as int),
        None => None,
    }
}

impl View for Item {
    type V = ItemModel;

    open spec fn view(&self) -> ItemModel {
        ItemModel {
            kind: self.kind,
            name: self.name as int,
            owner: optional_place(self.owner),
            first: self.first as int,
            body_lo: self.body_lo as int,
            body_hi: self.body_hi as int,
            last: self.last as int,
        }
    }
}

pub open spec fn item_models(rows: Seq<Item>) -> Seq<ItemModel> {
    rows.map_values(|r: Item| r@)
}

/// The last segment of the path that begins at `i`.
pub open spec fn path_tail(toks: Seq<TokenModel>, i: int, hi: int) -> int
    decreases hi - i,
{
    if i + 2 < hi && syntax::at(toks, i + 1, "::"@) && syntax::word_at(toks, i + 2) {
        path_tail(toks, i + 2, hi)
    } else {
        i
    }
}

/// The name of the type written at `i`, behind any reference or lifetime.
pub open spec fn named_type(toks: Seq<TokenModel>, i: int, hi: int) -> Option<int>
    decreases hi - i,
{
    if i >= hi {
        None
    } else if syntax::word_at(toks, i) && !syntax::at(toks, i, "mut"@) && !syntax::at(
        toks,
        i,
        "dyn"@,
    ) {
        Some(path_tail(toks, i, hi))
    } else {
        named_type(toks, i + 1, hi)
    }
}

/// The type that an `impl` with the header `lo..hi` is of: what stands behind
/// `for`, or behind the generics where there is no `for`.
pub open spec fn impl_type(toks: Seq<TokenModel>, lo: int, hi: int) -> Option<int> {
    let f = syntax::find(toks, lo, hi, "for"@);
    if f < hi {
        named_type(toks, f + 1, hi)
    } else if syntax::at(toks, lo, "<"@) {
        named_type(toks, syntax::angle_end(toks, lo, hi, 0), hi)
    } else {
        named_type(toks, lo, hi)
    }
}

/// The token at `i` is the keyword and a name follows it.
pub open spec fn names(toks: Seq<TokenModel>, i: int, hi: int, keyword: Seq<char>) -> bool {
    i + 1 < hi && syntax::at(toks, i, keyword) && syntax::word_at(toks, i + 1)
}

/// The place behind the body, or behind the `;`, that the item at `b` ends with.
pub open spec fn body_end(toks: Seq<TokenModel>, b: int, hi: int) -> int {
    if b < hi {
        syntax::next(toks, b, hi)
    } else {
        hi
    }
}

/// The item whose keyword stands at `i` and whose body begins at `b`.
pub open spec fn item_at(
    toks: Seq<TokenModel>,
    i: int,
    b: int,
    hi: int,
    kind: ItemKind,
    owner: Option<int>,
) -> ItemModel {
    let e = body_end(toks, b, hi);
    let has_body = b < hi && syntax::at(toks, b, "{"@);
    ItemModel {
        kind,
        name: i + 1,
        owner,
        first: i,
        body_lo: if has_body {
            b + 1
        } else {
            e
        },
        body_hi: if has_body {
            e - 1
        } else {
            e
        },
        last: e,
    }
}

/// What stands at a place where an item may begin.
#[derive(Clone, Copy, PartialEq, Eq, Structural, Debug)]
pub enum Step {
    /// An item of this kind, whose body begins at the place.
    Item(ItemKind, usize),
    /// A group of items whose bracket stands at the place, and the type that
    /// they are of.
    Inner(usize, Option<usize>),
    /// Something else.
    Other,
}

/// What a [`Step`] holds, as plain values.
pub enum StepModel {
    Item(ItemKind, int),
    Inner(int, Option<int>),
    Other,
}

impl View for Step {
    type V = StepModel;

    open spec fn view(&self) -> StepModel {
        match *self {
            Step::Item(kind, b) => StepModel::Item(kind, b as int),
            Step::Inner(b, owner) => StepModel::Inner(b as int, optional_place(owner)),
            Step::Other => StepModel::Other,
        }
    }
}

/// What stands at `i`.
pub open spec fn step_at(toks: Seq<TokenModel>, i: int, hi: int) -> StepModel {
    let b = syntax::find_body(toks, i + 1, hi);
    if names(toks, i, hi, "fn"@) {
        StepModel::Item(ItemKind::Function, b)
    } else if names(toks, i, hi, "enum"@) {
        StepModel::Item(ItemKind::Enum, b)
    } else if names(toks, i, hi, "struct"@) {
        StepModel::Item(ItemKind::Struct, b)
    } else if syntax::at(toks, i, "impl"@) {
        let open = syntax::find(toks, i + 1, hi, "{"@);
        StepModel::Inner(open, impl_type(toks, i + 1, open))
    } else if names(toks, i, hi, "trait"@) {
        StepModel::Inner(b, Some(i + 1))
    } else if names(toks, i, hi, "mod"@) {
        StepModel::Inner(b, None)
    } else {
        StepModel::Other
    }
}

/// The items of `lo..hi`, those of a module, an `impl` or a trait in place of it.
pub open spec fn items(toks: Seq<TokenModel>, lo: int, hi: int, owner: Option<int>) -> Seq<
    ItemModel,
>
    decreases syntax::span(lo, hi),
{
    if lo >= hi {
        Seq::empty()
    } else {
        match step_at(toks, lo, hi) {
            StepModel::Item(kind, b) => seq![item_at(toks, lo, b, hi, kind, owner)] + items(
                toks,
                body_end(toks, b, hi),
                hi,
                owner,
            ),
            StepModel::Inner(b, inner) => items(toks, b + 1, body_end(toks, b, hi) - 1, inner)
                + items(toks, body_end(toks, b, hi), hi, owner),
            StepModel::Other => items(toks, syntax::next(toks, lo, hi), hi, owner),
        }
    }
}

/// The items of a file.
pub open spec fn file_items(toks: Seq<TokenModel>) -> Seq<ItemModel> {
    items(toks, 0, toks.len() as int, None)
}

/// There are no more items than tokens.
pub proof fn items_are_few(toks: Seq<TokenModel>, lo: int, hi: int, owner: Option<int>)
    ensures
        items(toks, lo, hi, owner).len() <= syntax::span(lo, hi),
    decreases syntax::span(lo, hi),
{
    if lo < hi {
        match step_at(toks, lo, hi) {
            StepModel::Item(kind, b) => {
                items_are_few(toks, body_end(toks, b, hi), hi, owner);
            },
            StepModel::Inner(b, inner) => {
                items_are_few(toks, b + 1, body_end(toks, b, hi) - 1, inner);
                items_are_few(toks, body_end(toks, b, hi), hi, owner);
            },
            StepModel::Other => {
                items_are_few(toks, syntax::next(toks, lo, hi), hi, owner);
            },
        }
    }
}

/// Every item has tokens, and they lie in the range.
pub proof fn items_lie_inside(toks: Seq<TokenModel>, lo: int, hi: int, owner: Option<int>)
    ensures
        forall|k: int|
            0 <= k < items(toks, lo, hi, owner).len() ==> lo <= (#[trigger] items(
                toks,
                lo,
                hi,
                owner,
            )[k]).first < items(toks, lo, hi, owner)[k].last <= hi,
    decreases syntax::span(lo, hi),
{
    broadcast use {syntax::next_is_ahead, syntax::find_is_inside};

    if lo < hi {
        let all = items(toks, lo, hi, owner);
        match step_at(toks, lo, hi) {
            StepModel::Item(kind, b) => {
                let rest = items(toks, body_end(toks, b, hi), hi, owner);
                items_lie_inside(toks, body_end(toks, b, hi), hi, owner);
                assert forall|k: int| 0 <= k < all.len() implies lo <= (#[trigger] all[k]).first
                    < all[k].last <= hi by {
                    if k > 0 {
                        assert(all[k] == rest[k - 1]);
                    }
                }
            },
            StepModel::Inner(b, inner) => {
                let own = items(toks, b + 1, body_end(toks, b, hi) - 1, inner);
                let rest = items(toks, body_end(toks, b, hi), hi, owner);
                items_lie_inside(toks, b + 1, body_end(toks, b, hi) - 1, inner);
                items_lie_inside(toks, body_end(toks, b, hi), hi, owner);
                assert forall|k: int| 0 <= k < all.len() implies lo <= (#[trigger] all[k]).first
                    < all[k].last <= hi by {
                    if k < own.len() {
                        assert(all[k] == own[k]);
                    } else {
                        assert(all[k] == rest[k - own.len()]);
                    }
                }
            },
            StepModel::Other => {
                items_lie_inside(toks, syntax::next(toks, lo, hi), hi, owner);
            },
        }
    }
}

fn find_path_tail(code: &Code, start: usize, hi: usize) -> (r: usize)
    requires
        code.wf(),
        start < hi <= code@.len(),
    ensures
        r == path_tail(code@, start as int, hi as int),
        start <= r < hi,
{
    let mut i: usize = start;
    while hi - i > 2 && code.is(i + 1, "::") && code.is_word(i + 2)
        invariant
            start <= i < hi <= code@.len(),
            code@.len() == code.toks.len(),
            path_tail(code@, start as int, hi as int) == path_tail(code@, i as int, hi as int),
        decreases hi - i,
    {
        i += 2;
    }
    i
}

fn find_named_type(code: &Code, start: usize, hi: usize) -> (r: Option<usize>)
    requires
        code.wf(),
        hi <= code@.len(),
    ensures
        optional_place(r) == named_type(code@, start as int, hi as int),
        r is Some ==> r->0 < code@.len(),
{
    let mut i: usize = start;
    while i < hi
        invariant
            code.wf(),
            hi <= code@.len(),
            named_type(code@, start as int, hi as int) == named_type(code@, i as int, hi as int),
        decreases hi - i,
    {
        if code.is_word(i) && !code.is(i, "mut") && !code.is(i, "dyn") {
            return Some(find_path_tail(code, i, hi));
        }
        i += 1;
    }
    None
}

fn find_impl_type(code: &Code, lo: usize, hi: usize) -> (r: Option<usize>)
    requires
        code.wf(),
        lo <= hi <= code@.len(),
    ensures
        optional_place(r) == impl_type(code@, lo as int, hi as int),
        r is Some ==> r->0 < code@.len(),
{
    let f: usize = code.find_place(lo, hi, "for");
    if f < hi {
        find_named_type(code, f + 1, hi)
    } else if code.is(lo, "<") {
        find_named_type(code, code.find_angle_end(lo, hi), hi)
    } else {
        find_named_type(code, lo, hi)
    }
}

fn names_here(code: &Code, i: usize, hi: usize, keyword: &str) -> (r: bool)
    requires
        i < hi <= code@.len(),
        code.wf(),
    ensures
        r == names(code@, i as int, hi as int, keyword@),
{
    i + 1 < hi && code.is(i, keyword) && code.is_word(i + 1)
}

fn find_body_end(code: &Code, b: usize, hi: usize) -> (r: usize)
    requires
        code.wf(),
        b <= hi <= code@.len(),
    ensures
        r == body_end(code@, b as int, hi as int),
        b <= r <= hi,
        b < hi ==> b < r,
{
    if b < hi {
        code.next_place(b, hi)
    } else {
        hi
    }
}

fn read_item(
    code: &Code,
    i: usize,
    b: usize,
    hi: usize,
    kind: ItemKind,
    owner: Option<usize>,
) -> (r: Item)
    requires
        code.wf(),
        i < b <= hi <= code@.len(),
        i + 1 < hi,
    ensures
        r@ == item_at(code@, i as int, b as int, hi as int, kind, optional_place(owner)),
        i < r.last <= hi,
        r.name < code@.len(),
        r.body_hi <= code@.len(),
        r.last <= code@.len(),
        r.owner == owner,
{
    let e: usize = find_body_end(code, b, hi);
    let has_body: bool = b < hi && code.is(b, "{");
    Item {
        kind,
        name: i + 1,
        owner,
        first: i,
        body_lo: if has_body {
            b + 1
        } else {
            e
        },
        body_hi: if has_body {
            e - 1
        } else {
            e
        },
        last: e,
    }
}

/// The places that an item holds are places of the file.
pub open spec fn item_fits(toks: Seq<TokenModel>, it: Item) -> bool {
    &&& it.name < toks.len()
    &&& it.body_hi <= toks.len()
    &&& it.last <= toks.len()
    &&& it.first < it.last
    &&& it.owner is Some ==> it.owner->0 < toks.len()
}

fn read_step(code: &Code, i: usize, hi: usize) -> (r: Step)
    requires
        code.wf(),
        i < hi <= code@.len(),
    ensures
        r@ == step_at(code@, i as int, hi as int),
        r matches Step::Item(_, b) ==> i < b <= hi && i + 1 < hi,
        r matches Step::Inner(b, owner) ==> i < b <= hi && (owner is Some ==> owner->0
            < code@.len()),
{
    if names_here(code, i, hi, "fn") {
        Step::Item(ItemKind::Function, code.find_body_place(i + 1, hi))
    } else if names_here(code, i, hi, "enum") {
        Step::Item(ItemKind::Enum, code.find_body_place(i + 1, hi))
    } else if names_here(code, i, hi, "struct") {
        Step::Item(ItemKind::Struct, code.find_body_place(i + 1, hi))
    } else if code.is(i, "impl") {
        let open: usize = code.find_place(i + 1, hi, "{");
        Step::Inner(open, find_impl_type(code, i + 1, open))
    } else if names_here(code, i, hi, "trait") {
        Step::Inner(code.find_body_place(i + 1, hi), Some(i + 1))
    } else if names_here(code, i, hi, "mod") {
        Step::Inner(code.find_body_place(i + 1, hi), None)
    } else {
        Step::Other
    }
}

fn add_items(code: &Code, lo: usize, hi: usize, owner: Option<usize>, out: &mut Vec<Item>)
    requires
        code.wf(),
        hi <= code@.len(),
        owner is Some ==> owner->0 < code@.len(),
        forall|i: int| 0 <= i < old(out).len() ==> item_fits(code@, #[trigger] old(out)@[i]),
    ensures
        item_models(final(out)@) == item_models(old(out)@) + items(
            code@,
            lo as int,
            hi as int,
            optional_place(owner),
        ),
        forall|i: int| 0 <= i < final(out).len() ==> item_fits(code@, #[trigger] final(out)@[i]),
    decreases syntax::span(lo as int, hi as int),
{
    let ghost start = item_models(out@);
    let ghost own = optional_place(owner);
    let mut i: usize = lo;
    while i < hi
        invariant
            code.wf(),
            lo <= i,
            hi <= code@.len(),
            owner is Some ==> owner->0 < code@.len(),
            own == optional_place(owner),
            item_models(out@) + items(code@, i as int, hi as int, own) == start + items(
                code@,
                lo as int,
                hi as int,
                own,
            ),
            forall|j: int| 0 <= j < out.len() ==> item_fits(code@, #[trigger] out@[j]),
        decreases hi - i,
    {
        let ghost sofar = item_models(out@);
        match read_step(code, i, hi) {
            Step::Item(kind, b) => {
                let it = read_item(code, i, b, hi, kind, owner);
                out.push(it);
                proof {
                    assert(item_models(out@) =~= sofar.push(it@));
                    let rest = items(code@, it.last as int, hi as int, own);
                    assert(sofar + (seq![it@] + rest) =~= sofar.push(it@) + rest);
                }
                i = it.last;
            },
            Step::Inner(b, inner) => {
                let e: usize = find_body_end(code, b, hi);
                if b < hi {
                    add_items(code, b + 1, e - 1, inner, out);
                }
                proof {
                    let a = items(code@, b + 1, e - 1, optional_place(inner));
                    let rest = items(code@, e as int, hi as int, own);
                    if b >= hi {
                        assert(a =~= Seq::empty());
                        assert(sofar + a =~= sofar);
                    }
                    assert(sofar + (a + rest) =~= (sofar + a) + rest);
                }
                i = e;
            },
            Step::Other => {
                i = code.next_place(i, hi);
            },
        }
    }
    assert(item_models(out@) + Seq::<ItemModel>::empty() =~= item_models(out@));
}

/// The items of a file.
pub fn read_items(code: &Code) -> (r: Vec<Item>)
    requires
        code.wf(),
    ensures
        item_models(r@) == file_items(code@),
        forall|i: int| 0 <= i < r.len() ==> item_fits(code@, #[trigger] r@[i]),
{
    let mut r: Vec<Item> = Vec::new();
    add_items(code, 0, code.toks.len(), None, &mut r);
    assert(item_models(r@) =~= file_items(code@));
    r
}

} // verus!
