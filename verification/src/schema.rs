//! The decisions behind derived struct codecs: which settings a struct and its
//! fields declare, and what a decoder does with the fields it finds stored.

use crate::error::{is_invalid_data, ArchiveError, ArchiveResult};
use crate::text::{decimal, decimal_string};
use vstd::prelude::*;
use vstd::string::*;

verus! {

/// The message of a positional struct stored under another version.
pub open spec fn unsupported_version_message(
    struct_name: Seq<char>,
    expected: u32,
    actual: u32,
) -> Seq<char> {
    "unsupported "@ + struct_name + " version: expected "@ + decimal(expected as nat)
        + ", actual "@ + decimal(actual as nat)
}

/// The message of a stored field whose introduction version differs from the schema's.
pub open spec fn changed_version_message(
    struct_name: Seq<char>,
    field_id: Seq<char>,
    expected: u32,
    actual: u32,
) -> Seq<char> {
    "field "@ + struct_name + "."@ + field_id + " introduction version changed: expected "@
        + decimal(expected as nat) + ", actual "@ + decimal(actual as nat)
}

/// The message of a field that the stored schema version should contain but lacks.
pub open spec fn missing_field_message(
    struct_name: Seq<char>,
    field_id: Seq<char>,
    stored_version: u32,
) -> Seq<char> {
    "missing field "@ + struct_name + "."@ + field_id + " in stored schema version "@ + decimal(
        stored_version as nat,
    )
}

/// A positional struct accepts only the version it was written with.
pub fn check_struct_version(struct_name: &str, expected: u32, actual: u32) -> (r: ArchiveResult<()>)
    ensures
        expected == actual ==> r is Ok,
        expected != actual ==> (r matches Err(e) && is_invalid_data(
            e,
            unsupported_version_message(struct_name@, expected, actual),
        )),
{
    if expected == actual {
        return Ok(());
    }
    let mut m = String::from_str("unsupported ");
    m.append(struct_name);
    m.append(" version: expected ");
    m.append(decimal_string(expected as u64).as_str());
    m.append(", actual ");
    m.append(decimal_string(actual as u64).as_str());
    proof {
        reveal_strlit("unsupported ");
        reveal_strlit(" version: expected ");
        reveal_strlit(", actual ");
    }
    Err(ArchiveError::InvalidData(m))
}

/// A stored field must keep the introduction version the schema gives it.
pub fn check_field_version(
    struct_name: &str,
    field_id: &str,
    expected: u32,
    actual: u32,
) -> (r: ArchiveResult<()>)
    ensures
        expected == actual ==> r is Ok,
        expected != actual ==> (r matches Err(e) && is_invalid_data(
            e,
            changed_version_message(struct_name@, field_id@, expected, actual),
        )),
{
    if expected == actual {
        return Ok(());
    }
    let mut m = String::from_str("field ");
    m.append(struct_name);
    m.append(".");
    m.append(field_id);
    m.append(" introduction version changed: expected ");
    m.append(decimal_string(expected as u64).as_str());
    m.append(", actual ");
    m.append(decimal_string(actual as u64).as_str());
    proof {
        reveal_strlit("field ");
        reveal_strlit(".");
        reveal_strlit(" introduction version changed: expected ");
        reveal_strlit(", actual ");
    }
    Err(ArchiveError::InvalidData(m))
}

/// The value of a field after all stored fields were read: the stored value when
/// there was one; otherwise `default` when the field was introduced after the
/// stored schema version, and an error when the stored schema should have had it.
pub fn stored_or_default<T>(
    stored: Option<T>,
    stored_version: u32,
    introduced: u32,
    struct_name: &str,
    field_id: &str,
    default: T,
) -> (r: ArchiveResult<T>)
    ensures
        stored matches Some(v) ==> r == Ok::<T, ArchiveError>(v),
        stored is None && stored_version < introduced ==> r == Ok::<T, ArchiveError>(default),
        stored is None && stored_version >= introduced ==> (r matches Err(e) && is_invalid_data(
            e,
            missing_field_message(struct_name@, field_id@, stored_version),
        )),
{
    match stored {
        Some(value) => Ok(value),
        None => {
            if stored_version >= introduced {
                let mut m = String::from_str("missing field ");
                m.append(struct_name);
                m.append(".");
                m.append(field_id);
                m.append(" in stored schema version ");
                m.append(decimal_string(stored_version as u64).as_str());
                proof {
                    reveal_strlit("missing field ");
                    reveal_strlit(".");
                    reveal_strlit(" in stored schema version ");
                }
                return Err(ArchiveError::InvalidData(m));
            }
            Ok(default)
        },
    }
}

/// One setting inside a struct's `#[binary_archive(...)]` attribute.
pub enum StructSetting {
    /// `versioned`.
    Versioned,
    /// `version = N`; `None` when the literal does not fit in a `u32`.
    Version(Option<u32>),
    /// Any other setting.
    Unknown,
}

/// The resolved settings of a derived struct.
#[derive(Debug, Clone, Copy, PartialEq, Eq, Structural)]
pub struct StructSettings {
    /// The struct's schema version; 1 unless set.
    pub version: u32,
    /// Whether fields are stored as named, versioned records.
    pub versioned: bool,
}

/// The message of a version literal that does not fit in a `u32`.
pub open spec fn too_large_message() -> Seq<char> {
    "number too large to fit in target type"@
}

/// The struct settings that `settings` declare, or the message of the first one rejected.
pub open spec fn spec_struct_settings(settings: Seq<StructSetting>) -> Result<
    (Option<u32>, bool),
    Seq<char>,
>
    decreases settings.len(),
{
    if settings.len() == 0 {
        Ok((None, false))
    } else {
        match spec_struct_settings(settings.drop_last()) {
            Err(m) => Err(m),
            Ok((version, versioned)) => match settings.last() {
                StructSetting::Versioned => if versioned {
                    Err("duplicate `versioned` setting"@)
                } else {
                    Ok((version, true))
                },
                StructSetting::Version(v) => if version is Some {
                    Err("duplicate archive version"@)
                } else {
                    match v {
                        Some(n) => Ok((Some(n), versioned)),
                        None => Err(too_large_message()),
                    }
                },
                StructSetting::Unknown => Err("expected `version = <u32 literal>` or `versioned`"@),
            },
        }
    }
}

/// The settings of a struct that declares `declared` (its version, if set, and
/// whether `versioned` is set): version 1 unless set, and the versioned format
/// when requested or when a field is annotated.
pub open spec fn settings_from(declared: (Option<u32>, bool), has_field_annotations: bool) -> StructSettings {
    StructSettings {
        version: match declared.0 {
            Some(v) => v,
            None => 1,
        },
        versioned: declared.1 || has_field_annotations,
    }
}

/// Resolves the settings of a derived struct, in the order they were written.
/// Only structs can be derived; a field annotation turns the versioned format on.
pub fn resolve_struct_settings(
    settings: &Vec<StructSetting>,
    is_struct: bool,
    has_field_annotations: bool,
) -> (r: Result<StructSettings, String>)
    ensures
        spec_struct_settings(settings@) matches Err(m) ==> (r matches Err(e) && e@ == m),
        spec_struct_settings(settings@) is Ok && !is_struct ==> (r matches Err(e) && e@
            == "BinaryArchive supports structs only"@),
        spec_struct_settings(settings@) is Ok && is_struct ==> r == Ok::<StructSettings, String>(
            settings_from(spec_struct_settings(settings@)->Ok_0, has_field_annotations),
        ),
        r matches Ok(s) ==> is_struct && (has_field_annotations ==> s.versioned) && (s.versioned
            <==> has_field_annotations || exists|k: int|
            0 <= k < settings@.len() && #[trigger] settings@[k] is Versioned),
        r matches Ok(s) ==> (forall|k: int|
            0 <= k < settings@.len() ==> !(#[trigger] settings@[k] is Version)) ==> s.version == 1,
        r matches Ok(s) ==> forall|k: int|
            0 <= k < settings@.len() && #[trigger] settings@[k] is Version ==> Some(s.version)
                == settings@[k]->Version_0,
{
    proof {
        lemma_struct_settings_resolve(settings@, has_field_annotations);
    }
    let mut version: Option<u32> = None;
    let mut versioned = false;
    let mut i: usize = 0;
    while i < settings.len()
        invariant
            i <= settings@.len(),
            spec_struct_settings(settings@.take(i as int)) == Ok::<(Option<u32>, bool), Seq<char>>(
                (version, versioned),
            ),
        decreases settings@.len() - i,
    {
        proof {
            assert(settings@.take(i + 1).drop_last() =~= settings@.take(i as int));
            reveal_strlit("duplicate `versioned` setting");
            reveal_strlit("duplicate archive version");
            reveal_strlit("number too large to fit in target type");
            reveal_strlit("expected `version = <u32 literal>` or `versioned`");
        }
        match &settings[i] {
            StructSetting::Versioned => {
                if versioned {
                    proof {
                        lemma_struct_settings_error_stays(settings@, i as int + 1);
                    }
                    return Err(String::from_str("duplicate `versioned` setting"));
                }
                versioned = true;
            },
            StructSetting::Version(v) => {
                if version.is_some() {
                    proof {
                        lemma_struct_settings_error_stays(settings@, i as int + 1);
                    }
                    return Err(String::from_str("duplicate archive version"));
                }
                match v {
                    Some(n) => {
                        version = Some(*n);
                    },
                    None => {
                        proof {
                            lemma_struct_settings_error_stays(settings@, i as int + 1);
                        }
                        return Err(String::from_str("number too large to fit in target type"));
                    },
                }
            },
            StructSetting::Unknown => {
                proof {
                    lemma_struct_settings_error_stays(settings@, i as int + 1);
                }
                return Err(String::from_str("expected `version = <u32 literal>` or `versioned`"));
            },
        }
        i = i + 1;
    }
    proof {
        assert(settings@.take(settings@.len() as int) =~= settings@);
        reveal_strlit("BinaryArchive supports structs only");
    }
    if !is_struct {
        return Err(String::from_str("BinaryArchive supports structs only"));
    }
    let version = match version {
        Some(v) => v,
        None => 1,
    };
    Ok(StructSettings { version, versioned: versioned || has_field_annotations })
}

/// What an accepted list of struct settings declares: `versioned` exactly when
/// the list holds `Versioned`, and a version exactly when it holds a `Version`
/// setting, whose number that is (an accepted list holds at most one).
pub proof fn lemma_struct_settings_declare(settings: Seq<StructSetting>)
    ensures
        spec_struct_settings(settings) matches Ok(declared) ==> {
            &&& declared.1 <==> exists|k: int|
                0 <= k < settings.len() && #[trigger] settings[k] is Versioned
            &&& declared.0 is None <==> forall|k: int|
                0 <= k < settings.len() ==> !(#[trigger] settings[k] is Version)
            &&& forall|k: int|
                0 <= k < settings.len() && #[trigger] settings[k] is Version ==> declared.0
                    == settings[k]->Version_0
        },
    decreases settings.len(),
{
    if settings.len() > 0 {
        let prefix = settings.drop_last();
        lemma_struct_settings_declare(prefix);
        if spec_struct_settings(settings) is Ok {
            assert forall|k: int| 0 <= k < prefix.len() implies prefix[k] == settings[k] by {}
            assert(settings[settings.len() - 1] == settings.last());
        }
    }
}

/// The settings a derived struct resolves to: version 1 unless a `version`
/// setting gives another, and the field-versioned format exactly when the
/// struct says `versioned` or any field carries an annotation.
pub proof fn lemma_struct_settings_resolve(settings: Seq<StructSetting>, has_field_annotations: bool)
    ensures
        spec_struct_settings(settings) matches Ok(declared) ==> {
            let resolved = settings_from(declared, has_field_annotations);
            &&& has_field_annotations ==> resolved.versioned
            &&& resolved.versioned <==> has_field_annotations || exists|k: int|
                0 <= k < settings.len() && #[trigger] settings[k] is Versioned
            &&& (forall|k: int| 0 <= k < settings.len() ==> !(#[trigger] settings[k] is Version))
                ==> resolved.version == 1
            &&& forall|k: int|
                0 <= k < settings.len() && #[trigger] settings[k] is Version ==> Some(
                    resolved.version,
                ) == settings[k]->Version_0
        },
{
    lemma_struct_settings_declare(settings);
}

/// Once a prefix of the settings is rejected, so are all the settings.
proof fn lemma_struct_settings_error_stays(settings: Seq<StructSetting>, n: int)
    requires
        0 <= n <= settings.len(),
        spec_struct_settings(settings.take(n)) is Err,
    ensures
        spec_struct_settings(settings) == spec_struct_settings(settings.take(n)),
    decreases settings.len() - n,
{
    if n < settings.len() {
        assert(settings.take(n + 1).drop_last() =~= settings.take(n));
        lemma_struct_settings_error_stays(settings, n + 1);
    } else {
        assert(settings.take(n) =~= settings);
    }
}

/// One setting inside a field's `#[binary_archive(...)]` attribute.
pub enum FieldSetting {
    /// `version = N`; `None` when the literal does not fit in a `u32`.
    Version(Option<u32>),
    /// `id = "..."`.
    Id(String),
    /// `default = <expression>`.
    Default,
    /// Any other setting.
    Unknown,
}

/// A field as a derive sees it: its name without a raw-identifier prefix (none
/// for a tuple field) and the settings of its attributes, in order.
pub struct FieldDeclaration {
    pub name: Option<String>,
    pub settings: Vec<FieldSetting>,
}

/// A field of a versioned struct: its stable id, its introduction version, and
/// whether a `default` expression replaces the type's `Default`.
pub struct FieldPlan {
    pub id: String,
    pub version: u32,
    pub custom_default: bool,
}

/// The version, id and default flag that a field's settings declare, or the
/// message of the first setting rejected.
pub open spec fn spec_field_settings(settings: Seq<FieldSetting>) -> Result<
    (Option<u32>, Option<Seq<char>>, bool),
    Seq<char>,
>
    decreases settings.len(),
{
    if settings.len() == 0 {
        Ok((None, None, false))
    } else {
        match spec_field_settings(settings.drop_last()) {
            Err(m) => Err(m),
            Ok((version, id, default)) => match settings.last() {
                FieldSetting::Version(v) => if version is Some {
                    Err("duplicate field version"@)
                } else {
                    match v {
                        Some(n) => Ok((Some(n), id, default)),
                        None => Err(too_large_message()),
                    }
                },
                FieldSetting::Id(s) => if id is Some {
                    Err("duplicate field id"@)
                } else {
                    Ok((version, Some(s@), default))
                },
                FieldSetting::Default => if default {
                    Err("duplicate field default"@)
                } else {
                    Ok((version, id, true))
                },
                FieldSetting::Unknown => Err("expected field `version`, `id`, or `default`"@),
            },
        }
    }
}

/// A field's stable id: the declared one, else its name, else its position.
pub open spec fn spec_field_id(declared: Option<Seq<char>>, name: Option<String>, index: int) -> Seq<
    char,
> {
    match declared {
        Some(id) => id,
        None => match name {
            Some(n) => n@,
            None => decimal(index as nat),
        },
    }
}

/// The ids, introduction versions and default flags of `fields`, or the
/// position and message of the first field rejected.
pub open spec fn spec_field_plans(struct_version: u32, fields: Seq<FieldDeclaration>) -> Result<
    Seq<(Seq<char>, u32, bool)>,
    (int, Seq<char>),
>
    decreases fields.len(),
{
    if fields.len() == 0 {
        Ok(Seq::empty())
    } else {
        let i = fields.len() - 1;
        match spec_field_plans(struct_version, fields.drop_last()) {
            Err(e) => Err(e),
            Ok(plans) => match spec_field_settings(fields.last().settings@) {
                Err(m) => Err((i, m)),
                Ok((declared_version, declared_id, default)) => {
                    let version = match declared_version {
                        Some(v) => v,
                        None => struct_version,
                    };
                    let id = spec_field_id(declared_id, fields.last().name, i);
                    if version > struct_version {
                        Err((i, "field version exceeds struct version"@))
                    } else if id.len() == 0 || exists|j: int|
                        0 <= j < plans.len() && (#[trigger] plans[j]).0 == id {
                        Err((i, "field ids must be nonempty and unique"@))
                    } else {
                        Ok(plans.push((id, version, default)))
                    }
                },
            },
        }
    }
}

/// The spec view of resolved field plans.
pub open spec fn plan_views(plans: Seq<FieldPlan>) -> Seq<(Seq<char>, u32, bool)> {
    plans.map_values(|p: FieldPlan| (p.id@, p.version, p.custom_default))
}

/// Resolves one field's settings, in the order they were written.
fn field_settings(settings: &Vec<FieldSetting>) -> (r: Result<(Option<u32>, Option<String>, bool), String>)
    ensures
        spec_field_settings(settings@) matches Err(m) ==> (r matches Err(e) && e@ == m),
        spec_field_settings(settings@) matches Ok(p) ==> (r matches Ok(q) && q.0 == p.0 && (
        match q.1 {
            Some(s) => p.1 == Some(s@),
            None => p.1 is None,
        }) && q.2 == p.2),
{
    let mut version: Option<u32> = None;
    let mut id: Option<String> = None;
    let mut default = false;
    let mut i: usize = 0;
    while i < settings.len()
        invariant
            i <= settings@.len(),
            spec_field_settings(settings@.take(i as int)) matches Ok(p) && p.0 == version && (
            match id {
                Some(s) => p.1 == Some(s@),
                None => p.1 is None,
            }) && p.2 == default,
        decreases settings@.len() - i,
    {
        proof {
            assert(settings@.take(i + 1).drop_last() =~= settings@.take(i as int));
            reveal_strlit("duplicate field version");
            reveal_strlit("duplicate field id");
            reveal_strlit("duplicate field default");
            reveal_strlit("number too large to fit in target type");
            reveal_strlit("expected field `version`, `id`, or `default`");
        }
        match &settings[i] {
            FieldSetting::Version(v) => {
                if version.is_some() {
                    proof {
                        lemma_field_settings_error_stays(settings@, i as int + 1);
                    }
                    return Err(String::from_str("duplicate field version"));
                }
                match v {
                    Some(n) => {
                        version = Some(*n);
                    },
                    None => {
                        proof {
                            lemma_field_settings_error_stays(settings@, i as int + 1);
                        }
                        return Err(String::from_str("number too large to fit in target type"));
                    },
                }
            },
            FieldSetting::Id(s) => {
                if id.is_some() {
                    proof {
                        lemma_field_settings_error_stays(settings@, i as int + 1);
                    }
                    return Err(String::from_str("duplicate field id"));
                }
                id = Some(s.clone());
            },
            FieldSetting::Default => {
                if default {
                    proof {
                        lemma_field_settings_error_stays(settings@, i as int + 1);
                    }
                    return Err(String::from_str("duplicate field default"));
                }
                default = true;
            },
            FieldSetting::Unknown => {
                proof {
                    lemma_field_settings_error_stays(settings@, i as int + 1);
                }
                return Err(String::from_str("expected field `version`, `id`, or `default`"));
            },
        }
        i = i + 1;
    }
    proof {
        assert(settings@.take(settings@.len() as int) =~= settings@);
    }
    Ok((version, id, default))
}

/// Once a prefix of a field's settings is rejected, so are all its settings.
proof fn lemma_field_settings_error_stays(settings: Seq<FieldSetting>, n: int)
    requires
        0 <= n <= settings.len(),
        spec_field_settings(settings.take(n)) is Err,
    ensures
        spec_field_settings(settings) == spec_field_settings(settings.take(n)),
    decreases settings.len() - n,
{
    if n < settings.len() {
        assert(settings.take(n + 1).drop_last() =~= settings.take(n));
        lemma_field_settings_error_stays(settings, n + 1);
    } else {
        assert(settings.take(n) =~= settings);
    }
}

/// Once the fields up to some point are rejected, so are all the fields.
proof fn lemma_field_plans_error_stays(struct_version: u32, fields: Seq<FieldDeclaration>, n: int)
    requires
        0 <= n <= fields.len(),
        spec_field_plans(struct_version, fields.take(n)) is Err,
    ensures
        spec_field_plans(struct_version, fields) == spec_field_plans(struct_version, fields.take(n)),
    decreases fields.len() - n,
{
    if n < fields.len() {
        assert(fields.take(n + 1).drop_last() =~= fields.take(n));
        lemma_field_plans_error_stays(struct_version, fields, n + 1);
    } else {
        assert(fields.take(n) =~= fields);
    }
}

/// Some plan already has the id `id`.
fn has_id(plans: &Vec<FieldPlan>, id: &String) -> (b: bool)
    ensures
        b <==> exists|j: int| 0 <= j < plans@.len() && (#[trigger] plans@[j]).id@ == id@,
{
    let mut j: usize = 0;
    while j < plans.len()
        invariant
            j <= plans@.len(),
            forall|k: int| 0 <= k < j ==> (#[trigger] plans@[k]).id@ != id@,
        decreases plans@.len() - j,
    {
        if plans[j].id == *id {
            return true;
        }
        j = j + 1;
    }
    false
}

/// Resolves the stable ids and introduction versions of a versioned struct's
/// fields: a field without a `version` is introduced in the struct's version and
/// may not claim a later one; a field without an `id` is identified by its name,
/// or by its position for a tuple field; ids must be nonempty and unique.
pub fn plan_versioned_fields(struct_version: u32, fields: &Vec<FieldDeclaration>) -> (r: Result<
    Vec<FieldPlan>,
    (usize, String),
>)
    ensures
        spec_field_plans(struct_version, fields@) matches Ok(plans) ==> (r matches Ok(p) && plan_views(
            p@,
        ) == plans),
        spec_field_plans(struct_version, fields@) matches Err(e) ==> (r matches Err(f) && f.0 == e.0
            && f.1@ == e.1),
        r matches Ok(p) ==> p@.len() == fields@.len() && forall|i: int|
            0 <= i < fields@.len() ==> ((#[trigger] p@[i]).custom_default <==> exists|k: int|
                0 <= k < fields@[i].settings@.len() && #[trigger] fields@[i].settings@[k] is Default),
        r matches Ok(p) ==> forall|i: int, k: int|
            0 <= i < fields@.len() && 0 <= k < fields@[i].settings@.len()
                && #[trigger] fields@[i].settings@[k] is Version ==> Some((#[trigger] p@[i]).version)
                == fields@[i].settings@[k]->Version_0,
        r matches Ok(p) ==> forall|i: int, k: int|
            0 <= i < fields@.len() && 0 <= k < fields@[i].settings@.len()
                && #[trigger] fields@[i].settings@[k] is Id ==> (#[trigger] p@[i]).id@
                == fields@[i].settings@[k]->Id_0@,
{
    proof {
        lemma_field_plans_follow_settings(struct_version, fields@);
        lemma_field_plans_valid(struct_version, fields@);
    }
    let mut plans: Vec<FieldPlan> = Vec::new();
    let mut i: usize = 0;
    proof {
        assert(fields@.take(0) =~= Seq::<FieldDeclaration>::empty());
        assert(plan_views(plans@) =~= Seq::<(Seq<char>, u32, bool)>::empty());
    }
    while i < fields.len()
        invariant
            i <= fields@.len(),
            spec_field_plans(struct_version, fields@.take(i as int)) == Ok::<
                Seq<(Seq<char>, u32, bool)>,
                (int, Seq<char>),
            >(plan_views(plans@)),
        decreases fields@.len() - i,
    {
        proof {
            assert(fields@.take(i + 1).drop_last() =~= fields@.take(i as int));
            assert(fields@.take(i + 1).last() == fields@[i as int]);
            reveal_strlit("field version exceeds struct version");
            reveal_strlit("field ids must be nonempty and unique");
        }
        let field = &fields[i];
        let (declared_version, declared_id, default) = match field_settings(&field.settings) {
            Ok(settings) => settings,
            Err(message) => {
                proof {
                    lemma_field_plans_error_stays(struct_version, fields@, i as int + 1);
                }
                return Err((i, message));
            },
        };
        let version = match declared_version {
            Some(v) => v,
            None => struct_version,
        };
        if version > struct_version {
            proof {
                lemma_field_plans_error_stays(struct_version, fields@, i as int + 1);
            }
            return Err((i, String::from_str("field version exceeds struct version")));
        }
        let id = match declared_id {
            Some(id) => id,
            None => match &field.name {
                Some(name) => name.clone(),
                None => crate::text::decimal_string(i as u64),
            },
        };
        let ghost views = plan_views(plans@);
        proof {
            assert(id@ == spec_field_id(
                spec_field_settings(field.settings@)->Ok_0.1,
                field.name,
                i as int,
            ));
        }
        if id.unicode_len() == 0 || has_id(&plans, &id) {
            proof {
                if id@.len() != 0 {
                    let j = choose|j: int| 0 <= j < plans@.len() && (#[trigger] plans@[j]).id@ == id@;
                    assert(views[j].0 == id@);
                }
                lemma_field_plans_error_stays(struct_version, fields@, i as int + 1);
            }
            return Err((i, String::from_str("field ids must be nonempty and unique")));
        }
        plans.push(FieldPlan { id, version, custom_default: default });
        proof {
            assert(plan_views(plans@) =~= views.push((plans@.last().id@, version, default)));
        }
        i = i + 1;
    }
    proof {
        assert(fields@.take(fields@.len() as int) =~= fields@);
    }
    Ok(plans)
}

/// What an accepted list of field settings declares: a custom default exactly
/// when the list holds `Default`, a version exactly when it holds a `Version`
/// setting, and an id exactly when it holds an `Id` setting, with their values.
pub proof fn lemma_field_settings_declare(settings: Seq<FieldSetting>)
    ensures
        spec_field_settings(settings) matches Ok(declared) ==> {
            &&& declared.2 <==> exists|k: int|
                0 <= k < settings.len() && #[trigger] settings[k] is Default
            &&& declared.0 is None <==> forall|k: int|
                0 <= k < settings.len() ==> !(#[trigger] settings[k] is Version)
            &&& forall|k: int|
                0 <= k < settings.len() && #[trigger] settings[k] is Version ==> declared.0
                    == settings[k]->Version_0
            &&& declared.1 is None <==> forall|k: int|
                0 <= k < settings.len() ==> !(#[trigger] settings[k] is Id)
            &&& forall|k: int|
                0 <= k < settings.len() && #[trigger] settings[k] is Id ==> declared.1 == Some(
                    settings[k]->Id_0@,
                )
        },
    decreases settings.len(),
{
    if settings.len() > 0 {
        let prefix = settings.drop_last();
        lemma_field_settings_declare(prefix);
        if spec_field_settings(settings) is Ok {
            assert forall|k: int| 0 <= k < prefix.len() implies prefix[k] == settings[k] by {}
            assert(settings[settings.len() - 1] == settings.last());
        }
    }
}

/// Every field of a successful plan keeps what its settings declare: a custom
/// default exactly when it has a `default` setting, the declared version or
/// else the struct's, and the declared id or else its name or position.
pub proof fn lemma_field_plans_follow_settings(struct_version: u32, fields: Seq<FieldDeclaration>)
    ensures
        spec_field_plans(struct_version, fields) matches Ok(plans) ==> forall|i: int|
            0 <= i < fields.len() ==> {
                let settings = (#[trigger] fields[i]).settings@;
                &&& plans[i].2 <==> exists|k: int|
                    0 <= k < settings.len() && #[trigger] settings[k] is Default
                &&& (forall|k: int| 0 <= k < settings.len() ==> !(#[trigger] settings[k] is Version))
                    ==> plans[i].1 == struct_version
                &&& forall|k: int|
                    0 <= k < settings.len() && #[trigger] settings[k] is Version ==> Some(plans[i].1)
                        == settings[k]->Version_0
                &&& forall|k: int|
                    0 <= k < settings.len() && #[trigger] settings[k] is Id ==> plans[i].0
                        == settings[k]->Id_0@
                &&& (forall|k: int| 0 <= k < settings.len() ==> !(#[trigger] settings[k] is Id))
                    ==> plans[i].0 == match fields[i].name {
                    Some(n) => n@,
                    None => decimal(i as nat),
                }
            },
    decreases fields.len(),
{
    if fields.len() > 0 {
        let prefix = fields.drop_last();
        lemma_field_plans_follow_settings(struct_version, prefix);
        lemma_field_settings_declare(fields.last().settings@);
        if spec_field_plans(struct_version, fields) is Ok {
            let plans = spec_field_plans(struct_version, fields)->Ok_0;
            let prev = spec_field_plans(struct_version, prefix)->Ok_0;
            let n = fields.len() - 1;
            assert(fields[n] == fields.last());
            assert(spec_field_plans(struct_version, prefix) is Ok);
            lemma_field_plans_valid(struct_version, prefix);
            let d = spec_field_settings(fields.last().settings@)->Ok_0;
            let version = match d.0 {
                Some(v) => v,
                None => struct_version,
            };
            let id = spec_field_id(d.1, fields.last().name, n);
            assert(plans == prev.push((id, version, d.2)));
            assert forall|i: int| 0 <= i < fields.len() implies {
                let settings = (#[trigger] fields[i]).settings@;
                &&& plans[i].2 <==> exists|k: int|
                    0 <= k < settings.len() && #[trigger] settings[k] is Default
                &&& (forall|k: int| 0 <= k < settings.len() ==> !(#[trigger] settings[k] is Version))
                    ==> plans[i].1 == struct_version
                &&& forall|k: int|
                    0 <= k < settings.len() && #[trigger] settings[k] is Version ==> Some(plans[i].1)
                        == settings[k]->Version_0
                &&& forall|k: int|
                    0 <= k < settings.len() && #[trigger] settings[k] is Id ==> plans[i].0
                        == settings[k]->Id_0@
                &&& (forall|k: int| 0 <= k < settings.len() ==> !(#[trigger] settings[k] is Id))
                    ==> plans[i].0 == match fields[i].name {
                    Some(n) => n@,
                    None => decimal(i as nat),
                }
            } by {
                if i < n {
                    assert(prefix[i] == fields[i]);
                    assert(plans[i] == prev[i]);
                }
            }
        }
    }
}

/// A successful plan has one entry per field, every id nonempty and unique, and
/// no field introduced after the struct's version.
pub proof fn lemma_field_plans_valid(struct_version: u32, fields: Seq<FieldDeclaration>)
    ensures
        spec_field_plans(struct_version, fields) matches Ok(plans) ==> {
            &&& plans.len() == fields.len()
            &&& forall|i: int| 0 <= i < plans.len() ==> (#[trigger] plans[i]).1 <= struct_version
            &&& forall|i: int| 0 <= i < plans.len() ==> (#[trigger] plans[i]).0.len() > 0
            &&& forall|i: int, j: int|
                0 <= i < j < plans.len() ==> (#[trigger] plans[i]).0 != (#[trigger] plans[j]).0
        },
    decreases fields.len(),
{
    if fields.len() > 0 {
        lemma_field_plans_valid(struct_version, fields.drop_last());
    }
}

/// A field without a `version` setting is introduced in the struct's version,
/// and one without an `id` setting is identified by its name or position.
pub proof fn lemma_field_plan_defaults(struct_version: u32, fields: Seq<FieldDeclaration>, i: int)
    requires
        0 <= i < fields.len(),
        spec_field_plans(struct_version, fields) is Ok,
    ensures
        spec_field_settings(fields[i].settings@) matches Ok(declared) ==> {
            let plan = spec_field_plans(struct_version, fields)->Ok_0[i];
            &&& declared.0 is None ==> plan.1 == struct_version
            &&& declared.1 is None && fields[i].name is Some ==> plan.0 == fields[i].name->0@
            &&& declared.1 is None && fields[i].name is None ==> plan.0 == decimal(i as nat)
        },
    decreases fields.len(),
{
    lemma_field_plans_valid(struct_version, fields.drop_last());
    let prev = spec_field_plans(struct_version, fields.drop_last());
    assert(prev is Ok);
    if i < fields.len() - 1 {
        assert(fields.drop_last()[i] == fields[i]);
        lemma_field_plan_defaults(struct_version, fields.drop_last(), i);
        assert(spec_field_plans(struct_version, fields)->Ok_0[i] == prev->Ok_0[i]);
    }
}

} // verus!
