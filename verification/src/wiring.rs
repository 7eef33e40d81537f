//! Who calls whom, and what type names stand for, in the files that a reader of an
//! index sees.
use vstd::prelude::*;
use crate::content::{ContentModel, Language};
use crate::graph;
use crate::graph::{build_graph, FileSyntax, Graph, SyntaxModel};
use crate::imports;
use crate::imports::{find_type_references, Package, TypeReference};
use crate::index::{IndexDatabase, IndexModel};
use crate::lexer;
use crate::scoped;
use crate::scoped::sees_content;

verus! {

/// The Rust files among the contents that a reader sees.
pub open spec fn seen_syntax(db: IndexModel, cs: Seq<ContentModel>) -> Seq<SyntaxModel>
    decreases cs.len(),
{
    if cs.len() == 0 {
        Seq::empty()
    } else {
        let rest = seen_syntax(db, cs.drop_last());
        let c = cs.last();
        if c.language == Language::Rust && scoped::in_scope(db, c) {
            rest.push(SyntaxModel { path: c.path, toks: lexer::tokens(c.source) })
        } else {
            rest
        }
    }
}

fn read_seen(db: &IndexDatabase) -> (r: Vec<FileSyntax>)
    ensures
        graph::all_wf(r@),
        graph::syntax_models(r@) == seen_syntax(db@, db@.contents),
{
    let ghost all = db@.contents;
    let mut r: Vec<FileSyntax> = Vec::new();
    let mut i: usize = 0;
    assert(graph::syntax_models(r@) =~= seen_syntax(db@, all.take(0)));
    while i < db.contents.len()
        invariant
            i <= db.contents.len(),
            all == db@.contents,
            graph::all_wf(r@),
            graph::syntax_models(r@) == seen_syntax(db@, all.take(i as int)),
        decreases db.contents.len() - i,
    {
        proof {
            assert(all.take(i + 1).drop_last() =~= all.take(i as int));
            assert(all.take(i + 1).last() == db.contents@[i as int]@);
        }
        let c = &db.contents[i];
        if c.language == Language::Rust && sees_content(db, c) {
            let ghost sofar = graph::syntax_models(r@);
            let file = FileSyntax::read(c.path.as_str(), c.source.as_str());
            r.push(file);
            assert(graph::syntax_models(r@) =~= sofar.push(file@));
        }
        i += 1;
    }
    assert(all.take(i as int) =~= all);
    r
}

impl IndexDatabase {
    /// The graph of the Rust files that a reader sees.
    pub fn graph(&self) -> (r: Graph)
        ensures
            graph::is_graph(
                graph::edge_models(r.edges@),
                seen_syntax(self@, self@.contents),
            ),
    {
        let files = read_seen(self);
        build_graph(&files)
    }

    /// The type names in the functions of the Rust files that a reader sees, and
    /// what each stands for.
    pub fn type_references(&self, packages: &Vec<Package>) -> (r: Vec<TypeReference>)
        ensures
            imports::reference_models(r@) == imports::references(
                seen_syntax(self@, self@.contents),
                imports::package_models(packages@),
                seen_syntax(self@, self@.contents).len(),
            ),
    {
        let files = read_seen(self);
        assert(graph::syntax_models(files@).len() == files@.len());
        find_type_references(&files, packages)
    }
}

/// A file that a reader does not see takes no part in the graph: neither one of
/// another repository, nor one that a worktree hides.
pub proof fn unseen_files_take_no_part(db: IndexModel, cs: Seq<ContentModel>, c: ContentModel)
    requires
        !scoped::in_scope(db, c),
    ensures
        seen_syntax(db, cs.push(c)) == seen_syntax(db, cs),
{
    assert(cs.push(c).drop_last() =~= cs);
}

} // verus!
