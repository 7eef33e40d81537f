//! The objects of the schema: tables, and the triggers and indexes that stand on
//! them.
use vstd::prelude::*;
use crate::text::same_text;

verus! {

/// An object that the schema holds: its kind, its name, and the table it stands
/// on, which for a table is its own name.
pub struct SchemaObject {
    pub kind: String,
    pub name: String,
    pub table: String,
}

/// What a [`SchemaObject`] holds, as plain values.
#[verifier::ext_equal]
pub struct ObjectModel {
    pub kind: Seq<char>,
    pub name: Seq<char>,
    pub table: Seq<char>,
}

impl View for SchemaObject {
    type V = ObjectModel;

    open spec fn view(&self) -> ObjectModel {
        ObjectModel { kind: self.kind@, name: self.name@, table: self.table@ }
    }
}

pub open spec fn object_models(rows: Seq<SchemaObject>) -> Seq<ObjectModel> {
    rows.map_values(|r: SchemaObject| r@)
}

/// One of the objects has this kind and name.
pub open spec fn holds_object(
    objects: Seq<ObjectModel>,
    kind: Seq<char>,
    name: Seq<char>,
) -> bool {
    exists|i: int|
        0 <= i < objects.len() && (#[trigger] objects[i]).kind == kind && objects[i].name == name
}

/// A table.
pub open spec fn table(name: Seq<char>) -> ObjectModel {
    ObjectModel { kind: "table"@, name, table: name }
}

/// A trigger on the file table.
pub open spec fn file_trigger(name: Seq<char>) -> ObjectModel {
    ObjectModel { kind: "trigger"@, name, table: "files"@ }
}

/// The objects with one more, unless one of its kind and name is there.
pub open spec fn with_object(objects: Seq<ObjectModel>, o: ObjectModel) -> Seq<ObjectModel> {
    if holds_object(objects, o.kind, o.name) {
        objects
    } else {
        objects.push(o)
    }
}

/// The objects with the three fold triggers added where they are missing.
pub open spec fn with_fold_triggers(objects: Seq<ObjectModel>) -> Seq<ObjectModel> {
    with_object(
        with_object(
            with_object(objects, file_trigger("files_content_digest_ai"@)),
            file_trigger("files_content_digest_ad"@),
        ),
        file_trigger("files_content_digest_au"@),
    )
}

/// No trigger of this name stands on another table than that of the files.
pub open spec fn only_on_files(objects: Seq<ObjectModel>, name: Seq<char>) -> bool {
    forall|i: int|
        0 <= i < objects.len() && (#[trigger] objects[i]).kind == "trigger"@ && objects[i].name
            == name ==> objects[i].table == "files"@
}

/// The object stands on the file table, and is not that table itself.
pub open spec fn hangs_on_files(o: ObjectModel) -> bool {
    o.table == "files"@ && o.kind != "table"@
}

/// What is left when the file table is dropped and made anew.
pub open spec fn without_file_triggers(objects: Seq<ObjectModel>) -> Seq<ObjectModel> {
    objects.filter(|o: ObjectModel| !hangs_on_files(o))
}

/// The tables that the rest of the index reads and writes.
pub open spec fn schema_tables() -> Seq<Seq<char>> {
    seq![
        "files"@,
        "content_digest_state"@,
        "repos"@,
        "repo_meta"@,
        "index_meta"@,
        "schema_version"@,
        "git_commits"@,
        "git_file_changes"@,
        "git_change_couplings"@,
        "symbols"@,
        "logical_symbols"@,
        "symbol_fingerprints"@,
        "name_strings"@,
        "edges_data"@,
        "edge_oracle"@,
        "packages"@,
        "chunks"@,
        "chunk_text"@,
        "chunk_text_dict"@,
        "chunk_fts"@,
        "embedding_cache"@,
        "clone_refinements"@,
        "clone_graph_generations"@,
        "clone_edges"@,
        "clone_subblock_postings"@,
        "clone_token_df"@,
        "repo_memory_bindings"@,
    ]
}

/// An object that is added is there, and so is what was there before it.
pub proof fn added_objects_stay(
    objects: Seq<ObjectModel>,
    o: ObjectModel,
    kind: Seq<char>,
    name: Seq<char>,
)
    ensures
        holds_object(with_object(objects, o), kind, name) == (holds_object(objects, kind, name) || (
        kind == o.kind && name == o.name)),
{
    let now = with_object(objects, o);
    if !holds_object(objects, o.kind, o.name) {
        assert(now[now.len() - 1] == o);
        if holds_object(objects, kind, name) {
            let i = choose|i: int|
                0 <= i < objects.len() && (#[trigger] objects[i]).kind == kind && objects[i].name
                    == name;
            assert(now[i] == objects[i]);
        }
        if holds_object(now, kind, name) {
            let i = choose|i: int|
                0 <= i < now.len() && (#[trigger] now[i]).kind == kind && now[i].name == name;
            if i < objects.len() {
                assert(objects[i] == now[i]);
            }
        }
    }
}

/// Once the three fold triggers are put in place they are there, and so is what was
/// there before them.
pub proof fn fold_triggers_are_added(objects: Seq<ObjectModel>, kind: Seq<char>, name: Seq<char>)
    ensures
        holds_object(with_fold_triggers(objects), "trigger"@, "files_content_digest_ai"@),
        holds_object(with_fold_triggers(objects), "trigger"@, "files_content_digest_ad"@),
        holds_object(with_fold_triggers(objects), "trigger"@, "files_content_digest_au"@),
        holds_object(objects, kind, name) ==> holds_object(with_fold_triggers(objects), kind, name),
{
    let ai = file_trigger("files_content_digest_ai"@);
    let ad = file_trigger("files_content_digest_ad"@);
    let au = file_trigger("files_content_digest_au"@);
    let one = with_object(objects, ai);
    let two = with_object(one, ad);
    added_objects_stay(objects, ai, ai.kind, ai.name);
    added_objects_stay(objects, ai, kind, name);
    added_objects_stay(one, ad, ai.kind, ai.name);
    added_objects_stay(one, ad, ad.kind, ad.name);
    added_objects_stay(one, ad, kind, name);
    added_objects_stay(two, au, ai.kind, ai.name);
    added_objects_stay(two, au, ad.kind, ad.name);
    added_objects_stay(two, au, au.kind, au.name);
    added_objects_stay(two, au, kind, name);
}

/// A fold trigger that is put in place stands on the file table.
pub proof fn fold_triggers_stand_on_files(objects: Seq<ObjectModel>, name: Seq<char>)
    requires
        only_on_files(objects, name),
    ensures
        only_on_files(with_fold_triggers(objects), name),
{
}

/// After a rebuild of the file table a trigger that stood on it is gone.
pub proof fn rebuild_drops_triggers(objects: Seq<ObjectModel>, name: Seq<char>)
    requires
        only_on_files(objects, name),
    ensures
        !holds_object(without_file_triggers(objects), "trigger"@, name),
{
    let stays = |o: ObjectModel| !hangs_on_files(o);
    let rest = objects.filter(stays);
    reveal_strlit("trigger");
    reveal_strlit("table");
    assert("trigger"@.len() != "table"@.len());
    if holds_object(rest, "trigger"@, name) {
        let i = choose|i: int|
            0 <= i < rest.len() && (#[trigger] rest[i]).kind == "trigger"@ && rest[i].name == name;
        objects.lemma_filter_pred(stays, i);
        objects.lemma_filter_contains_rev(stays, rest[i]);
        let k = choose|k: int| 0 <= k < objects.len() && objects[k] == rest[i];
        assert(objects[k].kind == "trigger"@);
    }
}

/// A rebuild of the file table leaves every table, and what stands on the others.
pub proof fn rebuild_keeps_the_rest(objects: Seq<ObjectModel>, o: ObjectModel)
    requires
        objects.contains(o),
        !hangs_on_files(o),
    ensures
        without_file_triggers(objects).contains(o),
{
    let stays = |o: ObjectModel| !hangs_on_files(o);
    let i = choose|i: int| 0 <= i < objects.len() && objects[i] == o;
    objects.lemma_filter_contains(stays, i);
}

/// Whether the object stands on the file table, and is not that table itself.
pub(crate) fn is_on_files(o: &SchemaObject) -> (r: bool)
    ensures
        r == hangs_on_files(o@),
{
    same_text(o.table.as_str(), "files") && !same_text(o.kind.as_str(), "table")
}

/// The objects of the tables that the index reads and writes.
pub(crate) fn make_tables() -> (r: Vec<SchemaObject>)
    ensures
        object_models(r@) == schema_tables().map_values(|n: Seq<char>| table(n)),
{
    let names: [&'static str; 27] = [
        "files",
        "content_digest_state",
        "repos",
        "repo_meta",
        "index_meta",
        "schema_version",
        "git_commits",
        "git_file_changes",
        "git_change_couplings",
        "symbols",
        "logical_symbols",
        "symbol_fingerprints",
        "name_strings",
        "edges_data",
        "edge_oracle",
        "packages",
        "chunks",
        "chunk_text",
        "chunk_text_dict",
        "chunk_fts",
        "embedding_cache",
        "clone_refinements",
        "clone_graph_generations",
        "clone_edges",
        "clone_subblock_postings",
        "clone_token_df",
        "repo_memory_bindings",
    ];
    let ghost goal = schema_tables().map_values(|n: Seq<char>| table(n));
    assert forall|k: int| 0 <= k < 27 implies (#[trigger] names@[k])@ == schema_tables()[k] by {}
    let mut r: Vec<SchemaObject> = Vec::new();
    let mut i: usize = 0;
    assert(object_models(r@) =~= goal.take(0));
    while i < 27
        invariant
            i <= 27,
            goal.len() == 27,
            goal == schema_tables().map_values(|n: Seq<char>| table(n)),
            forall|k: int| 0 <= k < 27 ==> (#[trigger] names@[k])@ == schema_tables()[k],
            object_models(r@) == goal.take(i as int),
        decreases 27 - i,
    {
        let ghost sofar = object_models(r@);
        let name = names[i];
        let o = SchemaObject {
            kind: "table".to_owned(),
            name: name.to_owned(),
            table: name.to_owned(),
        };
        r.push(o);
        proof {
            assert(names@[i as int]@ == schema_tables()[i as int]);
            assert(goal[i as int] =~= o@);
            assert(object_models(r@) =~= sofar.push(o@));
            assert(goal.take(i + 1) =~= goal.take(i as int).push(goal[i as int]));
        }
        i += 1;
    }
    assert(goal.take(27) =~= goal);
    r
}

} // verus!
