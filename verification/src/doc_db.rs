//! The document store: every mutation goes to the relational store
//! first and is then mirrored to a one-file-per-entity, human-readable
//! copy.  The relational copy is the source of truth for reads; the
//! mirror is best-effort.  Because the mirror lives on the file system,
//! which this library does not touch, each mutating operation returns
//! the mirror action it asks for — the file to write and its full
//! contents, or the file to delete — and the embedding program performs
//! it.  If that write fails after the relational write succeeded, the
//! two copies are left inconsistent; that is the store's one
//! acknowledged durability gap, and nothing rolls back.
use vstd::prelude::*;

use crate::errors::DocDbError;
use crate::errors::DocDbResult;
use crate::ident::ulid_str;
use crate::ident::Ulid;
use crate::merge::merge_entities;
use crate::merge::spec_merge;
use crate::model::DocDbEntry;
use crate::sql_storage::create_sqlite_db_if_not_exists;
use crate::sql_storage::delete_entity_from_sqlite;
use crate::sql_storage::get_entries_from_sqlite;
use crate::sql_storage::get_entry_from_sqlite;
use crate::sql_storage::insert_entity_to_sqlite;
use crate::sql_storage::remove_all_entities_from_sqlite;
use crate::sql_storage::update_entity_in_sqlite;
use crate::tags::entity_with_tag;
use crate::tags::entity_without_tag;
use crate::tags::spec_add_tag;
use crate::tags::spec_add_tag_writes;
use crate::tags::spec_remove_tag;
use crate::tags::spec_remove_tag_writes;
use crate::value::lookup;
use crate::value::obj_keys_sorted;
use crate::value::wf;
use crate::value::wf_fields;
use crate::value::SpecValue;
use crate::value::Value;
use crate::yaml::to_yaml;
use crate::yaml::yaml_of;

verus! {

/// Where the two copies live: the relational database file, and the
/// directory (with a trailing separator) that holds the mirror files.
pub struct DbConfig {
    pub sqlite_db_full_filename: String,
    pub text_db_path: String,
}

/// The store's default locations.
pub fn get_prod_db_config() -> (r: DbConfig)
    ensures
        r.sqlite_db_full_filename@ == "data/documents.sqlite3"@,
        r.text_db_path@ == "data/entities/"@,
{
    DbConfig {
        sqlite_db_full_filename: "data/documents.sqlite3".to_owned(),
        text_db_path: "data/entities/".to_owned(),
    }
}

/// A mirror write the embedding program must perform: create or
/// replace the file at `filename` with exactly `content`.
#[derive(Debug)]
pub struct MirrorWrite {
    pub filename: String,
    pub content: String,
}

/// The path of an entity's mirror file.
pub open spec fn mirror_filename(dir: Seq<char>, bits: u128) -> Seq<char> {
    dir + ulid_str(bits) + ".yaml"@
}

/// The mirror write for one entity: its file, holding the entity's
/// mirror serialization.
pub fn mirror_write_for(entity_id: &Ulid, entity: &Value, db_config: &DbConfig) -> (r: MirrorWrite)
    ensures
        r.filename@ == mirror_filename(db_config.text_db_path@, entity_id.0),
        r.content@ == yaml_of(entity@),
{
    let mut filename = db_config.text_db_path.clone();
    let id_text = entity_id.to_string();
    filename.append(id_text.as_str());
    filename.append(".yaml");
    MirrorWrite { filename, content: to_yaml(entity) }
}

/// The pattern that matches every entity file in the mirror directory;
/// the embedding program sweeps it on clear, before the relational
/// clear.
pub fn mirror_sweep_pattern(db_config: &DbConfig) -> (r: String)
    ensures
        r@ == db_config.text_db_path@ + "*.yaml"@,
{
    let mut pattern = db_config.text_db_path.clone();
    pattern.append("*.yaml");
    pattern
}

/// Makes the relational store ready: creates the database file and the
/// `entities` table when absent; idempotent.  The mirror directory is
/// the embedding program's to create.
pub fn make_sure_db_exists(db_config: &DbConfig) -> (r: DocDbResult<()>)
    ensures
        r is Err ==> r->Err_0 is SqlStorageError,
{
    match create_sqlite_db_if_not_exists(db_config) {
        Ok(_) => Ok(()),
        Err(e) => Err(e),
    }
}

/// Inserts a new entity: the relational store assigns the identifier
/// and holds the canonical copy; the returned mirror write carries the
/// file copy for the embedding program to perform.
pub fn insert_entity_to_db(entity: &Value, db_config: &DbConfig) -> (r: DocDbResult<
    (Ulid, MirrorWrite),
>)
    requires
        wf(entity@),
    ensures
        r matches Ok((id, mw)) ==> mw.filename@ == mirror_filename(
            db_config.text_db_path@,
            id.0,
        ) && mw.content@ == yaml_of(entity@),
        r is Err ==> r->Err_0 is SqlStorageError,
{
    let entity_id = match insert_entity_to_sqlite(entity, db_config) {
        Ok(id) => id,
        Err(e) => {
            return Err(e);
        },
    };
    let mw = mirror_write_for(&entity_id, entity, db_config);
    Ok((entity_id, mw))
}

/// Point read from the relational store; the mirror is never
/// consulted.  A missing entity is None, not an error.
pub fn get_entry_from_db(entity_id: &Ulid, db_config: &DbConfig) -> (r: DocDbResult<
    Option<DocDbEntry>,
>)
    ensures
        r matches Ok(Some(e)) ==> e.id == *entity_id && wf(e.entity@),
        r is Err ==> r->Err_0 is SqlStorageError || r->Err_0 is InternalError,
{
    get_entry_from_sqlite(entity_id, db_config)
}

/// The entity a partial update should persist: the payload reconciled
/// against the stored version by the merge engine, or the payload
/// alone when nothing is stored under the identifier.
fn try_merge_entity_with_existing_version(
    entity: &Value,
    entity_id: &Ulid,
    db_config: &DbConfig,
) -> (r: DocDbResult<Value>)
    requires
        wf(entity@),
    ensures
        r matches Ok(v) ==> wf(v@) && (v@ == entity@ || (entity@ is Obj && exists|
            fs: Seq<(Seq<char>, SpecValue)>,
        |
            obj_keys_sorted(fs) && wf_fields(fs) && v@ == SpecValue::Obj(
                spec_merge(fs, entity@->Obj_0),
            ))),
        r is Err ==> r->Err_0 is SqlStorageError || r->Err_0 is InternalError,
{
    let mut merged = entity.deep_copy();
    let db_entry_option = match get_entry_from_sqlite(entity_id, db_config) {
        Ok(opt) => opt,
        Err(e) => {
            return Err(e);
        },
    };
    if let Some(db_entry) = db_entry_option {
        match merge_entities(&db_entry.entity, &mut merged) {
            Ok(_) => {
                proof {
                    let ghost dbfs = db_entry.entity@->Obj_0;
                    let ghost incfs = entity@->Obj_0;
                    crate::merge::lemma_merge_wf(dbfs, incfs);
                }
            },
            Err(e) => {
                return Err(e);
            },
        }
    }
    Ok(merged)
}

/// Partial update: reconciles the payload against the stored version,
/// overwrites the relational copy with the result, and returns the
/// mirror write of that same result.  An absent identifier is not an
/// error: the payload alone is persisted.
pub fn update_entity_in_db(entity_id: &Ulid, entity: &Value, db_config: &DbConfig) -> (r:
    DocDbResult<MirrorWrite>)
    requires
        wf(entity@),
    ensures
        r matches Ok(mw) ==> mw.filename@ == mirror_filename(
            db_config.text_db_path@,
            entity_id.0,
        ) && (exists|v: SpecValue|
            wf(v) && mw.content@ == yaml_of(v) && (v == entity@ || (entity@ is Obj && exists|
                fs: Seq<(Seq<char>, SpecValue)>,
            |
                obj_keys_sorted(fs) && wf_fields(fs) && v == SpecValue::Obj(
                    spec_merge(fs, entity@->Obj_0),
                )))),
        r is Err ==> r->Err_0 is SqlStorageError || r->Err_0 is InternalError,
{
    let merged = match try_merge_entity_with_existing_version(entity, entity_id, db_config) {
        Ok(v) => v,
        Err(e) => {
            return Err(e);
        },
    };
    match update_entity_in_sqlite(entity_id, &merged, db_config) {
        Ok(_) => {},
        Err(e) => {
            return Err(e);
        },
    }
    let mw = mirror_write_for(entity_id, &merged, db_config);
    proof {
        assert(wf(merged@) && mw.content@ == yaml_of(merged@));
    }
    Ok(mw)
}

/// Deletes the relational row first; an error there aborts before the
/// mirror is touched.  On success the returned path names the mirror
/// file the embedding program must delete.
pub fn delete_entity_from_db(entity_id: &Ulid, db_config: &DbConfig) -> (r: DocDbResult<String>)
    ensures
        r matches Ok(filename) ==> filename@ == mirror_filename(
            db_config.text_db_path@,
            entity_id.0,
        ),
        r is Err ==> r->Err_0 is SqlStorageError,
{
    match delete_entity_from_sqlite(entity_id, db_config) {
        Ok(_) => {},
        Err(e) => {
            return Err(e);
        },
    }
    let mut filename = db_config.text_db_path.clone();
    let id_text = entity_id.to_string();
    filename.append(id_text.as_str());
    filename.append(".yaml");
    Ok(filename)
}

/// Clears the relational table.  The mirror files are swept first by
/// the embedding program, using `mirror_sweep_pattern`; that sweep is
/// fail-fast, and only then is this relational clear run.
pub fn clear_db(db_config: &DbConfig) -> (r: DocDbResult<()>)
    ensures
        r is Err ==> r->Err_0 is SqlStorageError,
{
    remove_all_entities_from_sqlite(db_config)
}

/// Sets one field of a stored entity to a string value and persists
/// the result through the partial-update path.  A missing entity is a
/// relational storage error carrying a descriptive message.  On
/// success the returned mirror content serializes a well-formed
/// mapping that binds the field to exactly the given string.
pub fn set_entity_field_value(
    entity_id: &Ulid,
    field_name: &str,
    field_value: &str,
    db_config: &DbConfig,
) -> (r: DocDbResult<MirrorWrite>)
    ensures
        r matches Ok(mw) ==> mw.filename@ == mirror_filename(
            db_config.text_db_path@,
            entity_id.0,
        ) && (exists|v: SpecValue|
            wf(v) && mw.content@ == yaml_of(v) && v is Obj && lookup(v->Obj_0, field_name@)
                == Some(SpecValue::Str(field_value@))),
        r is Err ==> r->Err_0 is SqlStorageError || r->Err_0 is InternalError,
{
    let db_entry_option = match get_entry_from_db(entity_id, db_config) {
        Ok(opt) => opt,
        Err(e) => {
            return Err(e);
        },
    };
    let mut db_entry = match db_entry_option {
        Some(entry) => entry,
        None => {
            let mut message = "Unable to set entity ".to_owned();
            let id_text = entity_id.to_string();
            message.append(id_text.as_str());
            message.append(" field ");
            message.append(field_name);
            message.append(" to ");
            message.append(field_value);
            return Err(DocDbError::sql_storage(message.as_str(), "?"));
        },
    };
    let ghost prev_fs = db_entry.entity@->Obj_0;
    let ghost was_obj = db_entry.entity@ is Obj;
    match db_entry.set_field_value(field_name, Value::Str(field_value.to_owned())) {
        Ok(_) => {},
        Err(e) => {
            return Err(e);
        },
    }
    proof {
        crate::value::lemma_obj_set_sorted(prev_fs, field_name@, SpecValue::Str(field_value@));
        crate::value::lemma_obj_set_wf(prev_fs, field_name@, SpecValue::Str(field_value@));
    }
    let ghost set_fs = crate::value::obj_set(prev_fs, field_name@, SpecValue::Str(field_value@));
    match update_entity_in_db(entity_id, &db_entry.entity, db_config) {
        Ok(mw) => {
            proof {
                let pv = choose|v: SpecValue|
                    wf(v) && mw.content@ == yaml_of(v) && (v == db_entry.entity@ || (
                    db_entry.entity@ is Obj && exists|fs: Seq<(Seq<char>, SpecValue)>|
                        obj_keys_sorted(fs) && wf_fields(fs) && v == SpecValue::Obj(
                            spec_merge(fs, db_entry.entity@->Obj_0),
                        )));
                crate::value::lemma_obj_set_lookup(
                    prev_fs,
                    field_name@,
                    SpecValue::Str(field_value@),
                    field_name@,
                );
                assert(lookup(set_fs, field_name@) == Some(SpecValue::Str(field_value@)));
                if pv == db_entry.entity@ {
                    assert(lookup(pv->Obj_0, field_name@) == Some(SpecValue::Str(field_value@)));
                } else {
                    let fs = choose|fs: Seq<(Seq<char>, SpecValue)>|
                        obj_keys_sorted(fs) && wf_fields(fs) && pv == SpecValue::Obj(
                            spec_merge(fs, set_fs),
                        );
                    crate::merge::lemma_merge_lookup(fs, set_fs, field_name@);
                    assert(lookup(pv->Obj_0, field_name@) == Some(SpecValue::Str(field_value@)));
                }
            }
            Ok(mw)
        },
        Err(e) => Err(e),
    }
}

/// Adds a tag to a stored entity.  A missing entity is a relational
/// storage error; an already-present tag needs no write and returns
/// None; otherwise the updated entity is persisted through the
/// partial-update path and its mirror write is returned.  A returned
/// mirror content serializes the stored entity with the tag added —
/// or, should a concurrent writer slip in between the read and the
/// write, a merge of the newly stored fields with it.
pub fn tag_entity(entity_id: &Ulid, tag: &str, db_config: &DbConfig) -> (r: DocDbResult<
    Option<MirrorWrite>,
>)
    ensures
        r matches Ok(Some(mw)) ==> mw.filename@ == mirror_filename(
            db_config.text_db_path@,
            entity_id.0,
        ) && (exists|fs0: Seq<(Seq<char>, SpecValue)>, v: SpecValue|
            obj_keys_sorted(fs0) && wf_fields(fs0) && spec_add_tag_writes(fs0, tag@) && wf(v)
                && mw.content@ == yaml_of(v) && (v == SpecValue::Obj(spec_add_tag(fs0, tag@))
                || (exists|fs: Seq<(Seq<char>, SpecValue)>|
                obj_keys_sorted(fs) && wf_fields(fs) && v == SpecValue::Obj(
                    spec_merge(fs, spec_add_tag(fs0, tag@)),
                )))),
        r is Err ==> r->Err_0 is SqlStorageError || r->Err_0 is InternalError,
{
    let db_entry_option = match get_entry_from_db(entity_id, db_config) {
        Ok(opt) => opt,
        Err(e) => {
            return Err(e);
        },
    };
    let db_entry = match db_entry_option {
        Some(entry) => entry,
        None => {
            let mut message = "Unable to tag entity ".to_owned();
            let id_text = entity_id.to_string();
            message.append(id_text.as_str());
            return Err(DocDbError::sql_storage(message.as_str(), "?"));
        },
    };
    let (tagged, changed) = match entity_with_tag(&db_entry.entity, tag) {
        Ok(p) => p,
        Err(e) => {
            return Err(e);
        },
    };
    if !changed {
        return Ok(None);
    }
    proof {
        lemma_add_tag_wf(db_entry.entity@->Obj_0, tag@);
    }
    let ghost fs0 = db_entry.entity@->Obj_0;
    match update_entity_in_db(entity_id, &tagged, db_config) {
        Ok(mw) => {
            proof {
                let pv = choose|v: SpecValue|
                    wf(v) && mw.content@ == yaml_of(v) && (v == tagged@ || (tagged@ is Obj
                        && exists|fs: Seq<(Seq<char>, SpecValue)>|
                        obj_keys_sorted(fs) && wf_fields(fs) && v == SpecValue::Obj(
                            spec_merge(fs, tagged@->Obj_0),
                        )));
                assert(tagged@ == SpecValue::Obj(spec_add_tag(fs0, tag@)));
                assert(obj_keys_sorted(fs0) && wf_fields(fs0) && spec_add_tag_writes(fs0, tag@)
                    && wf(pv) && mw.content@ == yaml_of(pv) && (pv == SpecValue::Obj(
                    spec_add_tag(fs0, tag@),
                ) || (exists|fs: Seq<(Seq<char>, SpecValue)>|
                    obj_keys_sorted(fs) && wf_fields(fs) && pv == SpecValue::Obj(
                        spec_merge(fs, spec_add_tag(fs0, tag@)),
                    ))));
            }
            Ok(Some(mw))
        },
        Err(e) => Err(e),
    }
}

/// Removes a tag from a stored entity.  A missing entity is a
/// relational storage error; an absent tag (or no usable `tags` field)
/// needs no write and returns None; otherwise the updated entity is
/// persisted and its mirror write returned.  A returned mirror content
/// serializes the stored entity with the tag removed — or, should a
/// concurrent writer slip in between the read and the write, a merge
/// of the newly stored fields with it.
pub fn untag_entity(entity_id: &Ulid, tag: &str, db_config: &DbConfig) -> (r: DocDbResult<
    Option<MirrorWrite>,
>)
    ensures
        r matches Ok(Some(mw)) ==> mw.filename@ == mirror_filename(
            db_config.text_db_path@,
            entity_id.0,
        ) && (exists|fs0: Seq<(Seq<char>, SpecValue)>, v: SpecValue|
            obj_keys_sorted(fs0) && wf_fields(fs0) && spec_remove_tag_writes(fs0, tag@) && wf(v)
                && mw.content@ == yaml_of(v) && (v == SpecValue::Obj(spec_remove_tag(fs0, tag@))
                || (exists|fs: Seq<(Seq<char>, SpecValue)>|
                obj_keys_sorted(fs) && wf_fields(fs) && v == SpecValue::Obj(
                    spec_merge(fs, spec_remove_tag(fs0, tag@)),
                )))),
        r is Err ==> r->Err_0 is SqlStorageError || r->Err_0 is InternalError,
{
    let db_entry_option = match get_entry_from_db(entity_id, db_config) {
        Ok(opt) => opt,
        Err(e) => {
            return Err(e);
        },
    };
    let db_entry = match db_entry_option {
        Some(entry) => entry,
        None => {
            let mut message = "Unable to untag entity ".to_owned();
            let id_text = entity_id.to_string();
            message.append(id_text.as_str());
            return Err(DocDbError::sql_storage(message.as_str(), "?"));
        },
    };
    let (untagged, changed) = match entity_without_tag(&db_entry.entity, tag) {
        Ok(p) => p,
        Err(e) => {
            return Err(e);
        },
    };
    if !changed {
        return Ok(None);
    }
    proof {
        lemma_remove_tag_wf(db_entry.entity@->Obj_0, tag@);
    }
    let ghost fs0 = db_entry.entity@->Obj_0;
    match update_entity_in_db(entity_id, &untagged, db_config) {
        Ok(mw) => {
            proof {
                let pv = choose|v: SpecValue|
                    wf(v) && mw.content@ == yaml_of(v) && (v == untagged@ || (untagged@ is Obj
                        && exists|fs: Seq<(Seq<char>, SpecValue)>|
                        obj_keys_sorted(fs) && wf_fields(fs) && v == SpecValue::Obj(
                            spec_merge(fs, untagged@->Obj_0),
                        )));
                assert(untagged@ == SpecValue::Obj(spec_remove_tag(fs0, tag@)));
                assert(obj_keys_sorted(fs0) && wf_fields(fs0) && spec_remove_tag_writes(fs0, tag@)
                    && wf(pv) && mw.content@ == yaml_of(pv) && (pv == SpecValue::Obj(
                    spec_remove_tag(fs0, tag@),
                ) || (exists|fs: Seq<(Seq<char>, SpecValue)>|
                    obj_keys_sorted(fs) && wf_fields(fs) && pv == SpecValue::Obj(
                        spec_merge(fs, spec_remove_tag(fs0, tag@)),
                    ))));
            }
            Ok(Some(mw))
        },
        Err(e) => Err(e),
    }
}

/// Adding a tag to a well-formed entity keeps it well-formed.
proof fn lemma_add_tag_wf(fs: Seq<(Seq<char>, SpecValue)>, t: Seq<char>)
    requires
        obj_keys_sorted(fs),
        wf_fields(fs),
    ensures
        obj_keys_sorted(crate::tags::spec_add_tag(fs, t)),
        wf_fields(crate::tags::spec_add_tag(fs, t)),
{
    match crate::value::lookup(fs, "tags"@) {
        None => {
            lemma_wf_arr_single(t);
            crate::value::lemma_obj_set_sorted(
                fs,
                "tags"@,
                SpecValue::Arr(seq![SpecValue::Str(t)]),
            );
            crate::value::lemma_obj_set_wf(fs, "tags"@, SpecValue::Arr(seq![SpecValue::Str(t)]));
        },
        Some(v) => {
            if v is Arr {
                let ts = v->Arr_0;
                if !crate::tags::arr_has_str(ts, t) {
                    let ts2 = ts.push(SpecValue::Str(t));
                    lemma_tags_value_wf(fs, ts);
                    crate::value::lemma_wf_arr(ts);
                    crate::value::lemma_wf_arr(ts2);
                    assert(forall|i: int|
                        0 <= i < ts.len() ==> #[trigger] ts2[i] == ts[i]);
                    assert(ts2[ts.len() as int] == SpecValue::Str(t));
                    crate::value::lemma_obj_set_sorted(fs, "tags"@, SpecValue::Arr(ts2));
                    crate::value::lemma_obj_set_wf(fs, "tags"@, SpecValue::Arr(ts2));
                }
            }
        },
    }
}

/// Removing a tag from a well-formed entity keeps it well-formed.
proof fn lemma_remove_tag_wf(fs: Seq<(Seq<char>, SpecValue)>, t: Seq<char>)
    requires
        obj_keys_sorted(fs),
        wf_fields(fs),
    ensures
        obj_keys_sorted(crate::tags::spec_remove_tag(fs, t)),
        wf_fields(crate::tags::spec_remove_tag(fs, t)),
{
    match crate::value::lookup(fs, "tags"@) {
        Some(v) => {
            if v is Arr {
                let ts = v->Arr_0;
                if crate::tags::arr_has_str(ts, t) {
                    let ts2 = crate::tags::remove_first_str(ts, t);
                    lemma_tags_value_wf(fs, ts);
                    lemma_remove_first_wf(ts, t);
                    assert(wf(SpecValue::Arr(ts2)));
                    crate::value::lemma_obj_set_sorted(fs, "tags"@, SpecValue::Arr(ts2));
                    crate::value::lemma_obj_set_wf(fs, "tags"@, SpecValue::Arr(ts2));
                }
            }
        },
        None => {},
    }
}

/// A one-string array is well-formed.
proof fn lemma_wf_arr_single(t: Seq<char>)
    ensures
        wf(SpecValue::Arr(seq![SpecValue::Str(t)])),
{
    let one = seq![SpecValue::Str(t)];
    crate::value::lemma_wf_arr(one);
    assert(forall|i: int| 0 <= i < one.len() ==> wf(#[trigger] one[i]));
}

/// The value found under `tags` in a well-formed mapping is itself
/// well-formed.
proof fn lemma_tags_value_wf(fs: Seq<(Seq<char>, SpecValue)>, ts: Seq<SpecValue>)
    requires
        wf_fields(fs),
        crate::value::lookup(fs, "tags"@) == Some(SpecValue::Arr(ts)),
    ensures
        crate::value::wf_arr(ts),
{
    crate::value::lemma_wf_fields(fs);
    crate::value::lemma_lookup_index(fs, "tags"@);
    let i = choose|i: int|
        0 <= i < fs.len() && (#[trigger] fs[i]).0 == "tags"@ && fs[i].1 == crate::value::lookup(
            fs,
            "tags"@,
        )->Some_0;
    assert(wf(fs[i].1));
}

/// Removing the first occurrence of a string keeps every element
/// well-formed.
proof fn lemma_remove_first_wf(ts: Seq<SpecValue>, t: Seq<char>)
    requires
        crate::value::wf_arr(ts),
    ensures
        crate::value::wf_arr(crate::tags::remove_first_str(ts, t)),
    decreases ts.len(),
{
    crate::value::lemma_wf_arr(ts);
    if ts.len() > 0 {
        assert(forall|j: int|
            0 <= j < ts.drop_first().len() ==> #[trigger] ts.drop_first()[j] == ts[j + 1]);
        crate::value::lemma_wf_arr(ts.drop_first());
        if ts[0] == SpecValue::Str(t) {
        } else {
            lemma_remove_first_wf(ts.drop_first(), t);
            let r = crate::tags::remove_first_str(ts, t);
            let inner = crate::tags::remove_first_str(ts.drop_first(), t);
            crate::value::lemma_wf_arr(inner);
            crate::value::lemma_wf_arr(r);
            assert(forall|j: int| 0 <= j < inner.len() ==> #[trigger] r[j + 1] == inner[j]);
            assert(r[0] == ts[0]);
            assert(forall|j: int| 0 <= j < r.len() ==> wf(#[trigger] r[j])) by {
                assert(forall|j: int| 1 <= j < r.len() ==> r[j] == inner[j - 1]);
            }
        }
    }
}

/// Runs a caller-supplied predicate query against the relational
/// store; the mirror plays no part in reads.
pub fn get_entries_from_db(
    where_clause: &str,
    where_clause_params: &Vec<(String, String)>,
    db_config: &DbConfig,
) -> (r: DocDbResult<Vec<DocDbEntry>>)
    ensures
        r matches Ok(es) ==> forall|i: int|
            0 <= i < es@.len() ==> wf(#[trigger] es@[i].entity@),
        r is Err ==> r->Err_0 is SqlStorageError || r->Err_0 is InternalError,
{
    get_entries_from_sqlite(where_clause, where_clause_params, db_config)
}

} // verus!
