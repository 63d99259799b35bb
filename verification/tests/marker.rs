use mekle::marker::MarkerType;

#[test]
fn unknown_names_fall_back_to_other_config() {
    assert_eq!(
        MarkerType::from("never-heard-of-it"),
        MarkerType::OtherConfig("never-heard-of-it".into())
    );
}

#[test]
fn classifies_known_markers() {
    for (file_name, expected) in [
        ("package.json", MarkerType::PackageJson),
        ("Cargo.toml", MarkerType::CargoToml),
        ("deno.json", MarkerType::DenoJson),
        ("deno.jsonc", MarkerType::DenoJson),
        ("justfile", MarkerType::BuildFile("justfile".into())),
        ("Justfile", MarkerType::BuildFile("Justfile".into())),
        ("Makefile", MarkerType::BuildFile("Makefile".into())),
        ("CMakeLists.txt", MarkerType::BuildFile("CMakeLists.txt".into())),
        ("go.mod", MarkerType::OtherConfig("go.mod".into())),
    ] {
        assert_eq!(MarkerType::from(file_name), expected, "{file_name}");
        assert_eq!(MarkerType::classify(file_name), expected, "{file_name}");
    }
}
