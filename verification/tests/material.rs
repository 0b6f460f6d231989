use sapvc_lsp::material::{CharValueInfo, MaterialFile, MaterialIndex, VtStruct};

fn owned(list: &[&str]) -> Vec<String> {
    list.iter().map(|s| s.to_string()).collect()
}

fn package() -> MaterialFile {
    MaterialFile {
        material: None,
        system: None,
        chars: vec![],
        tables: vec![],
        objects: vec![],
        deps: vec![],
        char_values: vec![],
        classes: vec![],
        vt_chars: vec![],
        variant_functions: vec![],
        char_refs: vec![],
    }
}

fn values(list: &[&str]) -> CharValueInfo {
    CharValueInfo { values: owned(list), numeric: false, description: None, with_sign: false }
}

#[test]
fn loads_material_package() {
    let mut data = package();
    data.material = Some("X".to_string());
    data.system = Some("R1E".to_string());
    data.chars = owned(&["A_X", "B_Y"]);
    data.tables = owned(&["TB_1"]);
    data.objects = owned(&["ET1"]);
    data.deps = owned(&["PRO_X"]);
    let idx = MaterialIndex::load(Some(data));
    assert_eq!(idx.chars.len(), 2);
    assert_eq!(idx.completions_for("A"), vec!["A_X"]);
    assert!(idx.tables.contains("TB_1"));
    assert!(idx.objects.contains("ET1"));
    assert_eq!(idx.deps, vec!["PRO_X"]);
    assert_eq!(idx.system.as_deref(), Some("R1E"));
    assert_eq!(idx.folder_name(), "X");
    assert!(!idx.is_empty());
}

#[test]
fn without_a_package_nothing_is_known() {
    let idx = MaterialIndex::load(None);
    assert!(idx.is_empty());
    assert_eq!(idx.chars.len(), 0);
    assert_eq!(idx.vt_chars.len(), 0);
    assert_eq!(idx.folder_name(), "unknown");
    assert_eq!(idx.completions_for(""), Vec::<String>::new());
}

#[test]
fn classes_alone_are_no_universe() {
    let mut data = package();
    data.classes = owned(&["C"]);
    let idx = MaterialIndex::load(Some(data));
    assert!(idx.is_empty());
    assert!(idx.classes.contains("C"));
}

#[test]
fn tables_have_columns_and_keys() {
    let mut data = package();
    data.vt_chars = vec![
        (
            "T".to_string(),
            VtStruct { chars: owned(&["B", "A"]), key_fields: owned(&["A"]) },
        ),
        ("U".to_string(), VtStruct { chars: vec![], key_fields: vec![] }),
    ];
    data.char_refs = vec![(
        "C".to_string(),
        vec![("TAB".to_string(), "FIELD".to_string())],
    )];
    data.char_values = vec![("V".to_string(), values(&["1"]))];
    data.variant_functions = owned(&["F"]);
    let idx = MaterialIndex::load(Some(data));
    assert_eq!(idx.vt_chars.get("T"), Some(&owned(&["B", "A"])));
    assert_eq!(idx.vt_keys.get("T"), Some(&owned(&["A"])));
    assert_eq!(idx.vt_keys.get("U"), Some(&vec![]));
    assert_eq!(idx.vt_keys.get("X"), None);
    assert_eq!(
        idx.char_refs.get("C"),
        Some(&vec![("TAB".to_string(), "FIELD".to_string())])
    );
    assert_eq!(idx.char_values.get("V").map(|v| v.values.clone()), Some(owned(&["1"])));
    assert!(idx.variant_functions.contains("F"));
}

#[test]
fn completions_are_sorted_and_match() {
    let mut data = package();
    data.chars = owned(&["DIM_B", "TYP", "DIM_A", "DIM_B", "dim_c"]);
    let idx = MaterialIndex::load(Some(data));
    assert_eq!(idx.completions_for("DIM_"), vec!["DIM_A", "DIM_B"]);
    assert_eq!(idx.completions_for(""), vec!["DIM_A", "DIM_B", "TYP", "dim_c"]);
    assert_eq!(idx.completions_for("X"), Vec::<String>::new());
}

#[test]
fn values_are_compared_without_regard_to_ascii_case() {
    let info = values(&["S200", "Straße"]);
    assert!(info.has_values());
    assert!(info.contains_value("S200"));
    assert!(info.contains_value("s200"));
    assert!(info.contains_value("STRAßE"));
    assert!(!info.contains_value("STRASSE"));
    assert!(!info.contains_value("S20"));
    assert!(!values(&["Ä"]).contains_value("ä"));
    assert!(!values(&[]).has_values());
    assert!(!CharValueInfo::default().has_values());
}
