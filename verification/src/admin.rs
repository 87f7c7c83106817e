//! A small administrative domain: marking entities as important by
//! tagging them.
use vstd::prelude::*;

use crate::doc_db::mirror_filename;
use crate::doc_db::tag_entity;
use crate::doc_db::untag_entity;
use crate::doc_db::DbConfig;
use crate::doc_db::MirrorWrite;
use crate::errors::DocDbResult;
use crate::ident::Ulid;
use crate::merge::spec_merge;
use crate::tags::spec_add_tag;
use crate::tags::spec_add_tag_writes;
use crate::tags::spec_remove_tag;
use crate::tags::spec_remove_tag_writes;
use crate::value::obj_keys_sorted;
use crate::value::wf;
use crate::value::wf_fields;
use crate::value::SpecValue;
use crate::yaml::yaml_of;

verus! {

/// The administrative view of any entity: just its tags.
pub struct EntityMeta {
    pub tags: Vec<String>,
}

/// Adds the `important` tag to the entity; the returned mirror write,
/// when present, must be performed by the embedding program, and its
/// content serializes the stored entity with that tag added (or a
/// merge of newer stored fields with it).
pub fn mark_entity_as_important(entity_id: &Ulid, db_config: &DbConfig) -> (r: DocDbResult<
    Option<MirrorWrite>,
>)
    ensures
        r matches Ok(Some(mw)) ==> mw.filename@ == mirror_filename(
            db_config.text_db_path@,
            entity_id.0,
        ) && (exists|fs0: Seq<(Seq<char>, SpecValue)>, v: SpecValue|
            obj_keys_sorted(fs0) && wf_fields(fs0) && spec_add_tag_writes(fs0, "important"@)
                && wf(v) && mw.content@ == yaml_of(v) && (v == SpecValue::Obj(
                spec_add_tag(fs0, "important"@),
            ) || (exists|fs: Seq<(Seq<char>, SpecValue)>|
                obj_keys_sorted(fs) && wf_fields(fs) && v == SpecValue::Obj(
                    spec_merge(fs, spec_add_tag(fs0, "important"@)),
                )))),
        r is Err ==> r->Err_0 is SqlStorageError || r->Err_0 is InternalError,
{
    tag_entity(entity_id, "important", db_config)
}

/// Removes the `important` tag from the entity; the returned mirror
/// write, when present, must be performed by the embedding program,
/// and its content serializes the stored entity with that tag removed
/// (or a merge of newer stored fields with it).
pub fn unmark_entity_as_important(entity_id: &Ulid, db_config: &DbConfig) -> (r: DocDbResult<
    Option<MirrorWrite>,
>)
    ensures
        r matches Ok(Some(mw)) ==> mw.filename@ == mirror_filename(
            db_config.text_db_path@,
            entity_id.0,
        ) && (exists|fs0: Seq<(Seq<char>, SpecValue)>, v: SpecValue|
            obj_keys_sorted(fs0) && wf_fields(fs0) && spec_remove_tag_writes(fs0, "important"@)
                && wf(v) && mw.content@ == yaml_of(v) && (v == SpecValue::Obj(
                spec_remove_tag(fs0, "important"@),
            ) || (exists|fs: Seq<(Seq<char>, SpecValue)>|
                obj_keys_sorted(fs) && wf_fields(fs) && v == SpecValue::Obj(
                    spec_merge(fs, spec_remove_tag(fs0, "important"@)),
                )))),
        r is Err ==> r->Err_0 is SqlStorageError || r->Err_0 is InternalError,
{
    untag_entity(entity_id, "important", db_config)
}

} // verus!
