use binary_archive::schema::{
    plan_versioned_fields, resolve_struct_settings, FieldDeclaration, FieldSetting,
    StructSetting, StructSettings,
};

fn field(name: Option<&str>, settings: Vec<FieldSetting>) -> FieldDeclaration {
    FieldDeclaration {
        name: name.map(String::from),
        settings,
    }
}

fn plans(struct_version: u32, fields: &Vec<FieldDeclaration>) -> Vec<(String, u32, bool)> {
    plan_versioned_fields(struct_version, fields)
        .unwrap()
        .into_iter()
        .map(|p| (p.id, p.version, p.custom_default))
        .collect()
}

fn plan_error(struct_version: u32, fields: &Vec<FieldDeclaration>) -> (usize, String) {
    match plan_versioned_fields(struct_version, fields) {
        Ok(_) => panic!("expected the fields to be rejected"),
        Err(e) => e,
    }
}

#[test]
fn struct_settings_default_to_version_one_and_positional_fields() {
    assert_eq!(
        resolve_struct_settings(&vec![], true, false).unwrap(),
        StructSettings { version: 1, versioned: false }
    );
    assert_eq!(
        resolve_struct_settings(&vec![StructSetting::Version(Some(7))], true, false).unwrap(),
        StructSettings { version: 7, versioned: false }
    );
    assert_eq!(
        resolve_struct_settings(
            &vec![StructSetting::Versioned, StructSetting::Version(Some(2))],
            true,
            false
        )
        .unwrap(),
        StructSettings { version: 2, versioned: true }
    );
    assert_eq!(
        resolve_struct_settings(&vec![], true, true).unwrap(),
        StructSettings { version: 1, versioned: true }
    );
}

#[test]
fn invalid_struct_settings_are_rejected() {
    assert_eq!(
        resolve_struct_settings(&vec![], false, false).unwrap_err(),
        "BinaryArchive supports structs only"
    );
    assert_eq!(
        resolve_struct_settings(&vec![StructSetting::Version(None)], true, false).unwrap_err(),
        "number too large to fit in target type"
    );
    assert_eq!(
        resolve_struct_settings(&vec![StructSetting::Unknown], true, false).unwrap_err(),
        "expected `version = <u32 literal>` or `versioned`"
    );
    assert_eq!(
        resolve_struct_settings(
            &vec![StructSetting::Version(Some(1)), StructSetting::Version(Some(2))],
            true,
            false
        )
        .unwrap_err(),
        "duplicate archive version"
    );
    assert_eq!(
        resolve_struct_settings(
            &vec![StructSetting::Versioned, StructSetting::Versioned],
            false,
            false
        )
        .unwrap_err(),
        "duplicate `versioned` setting"
    );
}

#[test]
fn field_plans_inherit_the_struct_version_and_field_names() {
    let fields = vec![
        field(Some("count"), vec![FieldSetting::Version(Some(1))]),
        field(Some("name"), vec![FieldSetting::Version(Some(1))]),
        field(Some("visible"), vec![]),
        field(Some("description"), vec![FieldSetting::Default]),
    ];
    assert_eq!(
        plans(2, &fields),
        vec![
            ("count".into(), 1, false),
            ("name".into(), 1, false),
            ("visible".into(), 2, false),
            ("description".into(), 2, true),
        ]
    );
    let tuple = vec![
        field(None, vec![FieldSetting::Version(Some(1)), FieldSetting::Id("value".into())]),
        field(None, vec![]),
    ];
    assert_eq!(
        plans(2, &tuple),
        vec![("value".into(), 1, false), ("1".into(), 2, false)]
    );
}

#[test]
fn invalid_field_plans_are_rejected_at_the_first_bad_field() {
    let later = vec![
        field(Some("a"), vec![]),
        field(Some("b"), vec![FieldSetting::Version(Some(3))]),
    ];
    assert_eq!(
        plan_error(2, &later),
        (1, "field version exceeds struct version".into())
    );
    let duplicate = vec![
        field(Some("a"), vec![]),
        field(Some("b"), vec![FieldSetting::Id("a".into())]),
    ];
    assert_eq!(
        plan_error(1, &duplicate),
        (1, "field ids must be nonempty and unique".into())
    );
    let empty = vec![field(Some("a"), vec![FieldSetting::Id(String::new())])];
    assert_eq!(
        plan_error(1, &empty),
        (0, "field ids must be nonempty and unique".into())
    );
    let settings = [
        (vec![FieldSetting::Version(Some(1)), FieldSetting::Version(Some(1))], "duplicate field version"),
        (vec![FieldSetting::Id("x".into()), FieldSetting::Id("y".into())], "duplicate field id"),
        (vec![FieldSetting::Default, FieldSetting::Default], "duplicate field default"),
        (vec![FieldSetting::Unknown], "expected field `version`, `id`, or `default`"),
        (vec![FieldSetting::Version(None)], "number too large to fit in target type"),
    ];
    for (list, expected) in settings {
        assert_eq!(plan_error(1, &vec![field(Some("a"), list)]), (0, expected.into()));
    }
}
