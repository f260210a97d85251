use sourcemap_writer::json::print_source_map_json;
use sourcemap_writer::paths::{base_name, relative_path, split_components};

#[test]
fn document_has_the_fixed_shape() {
    let mut out = String::new();
    let names = vec!["Foo".to_string()];
    let result = print_source_map_json("out.ts", &["f0"], &names, "AAAKA,eAAG", &mut out);
    assert!(result.is_ok());
    assert_eq!(
        out,
        "{\"version\":3,\"file\":\"out.ts\",\"sourceRoot\":\"\",\"sources\":[\"f0\"],\"names\":[\"Foo\"],\"mappings\":\"AAAKA,eAAG\"}"
    );
}

#[test]
fn document_is_appended_to_the_buffer() {
    let mut out = String::from("x");
    let result = print_source_map_json("", &[], &[], "", &mut out);
    assert!(result.is_ok());
    assert_eq!(
        out,
        "x{\"version\":3,\"file\":\"\",\"sourceRoot\":\"\",\"sources\":[],\"names\":[],\"mappings\":\"\"}"
    );
}

#[test]
fn document_relates_sources_to_the_directory_of_the_file() {
    let mut out = String::new();
    let names = vec!["a".to_string(), "b\"c".to_string()];
    let result = print_source_map_json(
        "dist/gen/out.ts",
        &["src/schema.graphql", "dist/gen/op.graphql", "dist/other/x.graphql"],
        &names,
        ";;AAAA",
        &mut out,
    );
    assert!(result.is_ok());
    assert_eq!(
        out,
        "{\"version\":3,\"file\":\"out.ts\",\"sourceRoot\":\"\",\"sources\":[\"..\\/..\\/src\\/schema.graphql\",\"op.graphql\",\"..\\/other\\/x.graphql\"],\"names\":[\"a\",\"b\\\"c\"],\"mappings\":\";;AAAA\"}"
    );
}

#[test]
fn base_name_is_the_last_component() {
    assert_eq!(base_name("out.ts"), "out.ts");
    assert_eq!(base_name("a/b/out.ts"), "out.ts");
    assert_eq!(base_name("/usr/bin/"), "bin");
    assert_eq!(base_name("foo.txt/."), "foo.txt");
    assert_eq!(base_name("foo.txt/.//"), "foo.txt");
}

#[test]
fn base_name_is_empty_where_there_is_none() {
    assert_eq!(base_name(""), "");
    assert_eq!(base_name("/"), "");
    assert_eq!(base_name("."), "");
    assert_eq!(base_name("foo.txt/.."), "");
    assert_eq!(base_name(".."), "");
}

#[test]
fn components_leave_out_empty_and_dot() {
    assert_eq!(split_components("a//b/./c/"), vec!["a", "b", "c"]);
    assert_eq!(split_components("/a/../b"), vec!["a", "..", "b"]);
    assert!(split_components("").is_empty());
    assert!(split_components("/./").is_empty());
    assert_eq!(split_components("日本/語"), vec!["日本", "語"]);
}

#[test]
fn relative_path_in_the_same_directory() {
    assert_eq!(relative_path("out.ts", "f0"), "f0");
    assert_eq!(relative_path("a/out.ts", "a/f0"), "f0");
    assert_eq!(relative_path("/a/out.ts", "/a/b/f0"), "b/f0");
}

#[test]
fn relative_path_climbs_out_of_the_directory() {
    assert_eq!(relative_path("a/b/out.ts", "a/c/f0"), "../c/f0");
    assert_eq!(relative_path("a/b/out.ts", "f0"), "../../f0");
    assert_eq!(relative_path("/x/out.ts", "/y/z"), "../y/z");
}

#[test]
fn relative_path_of_the_directory_itself_is_empty() {
    assert_eq!(relative_path("a/out.ts", "a"), "");
    assert_eq!(relative_path("out.ts", ""), "");
}

#[test]
fn relative_path_falls_back_to_the_path_as_given() {
    assert_eq!(relative_path("/a/out.ts", "b/f0"), "b/f0");
    assert_eq!(relative_path("a/out.ts", "/b/f0"), "/b/f0");
    assert_eq!(relative_path("../out/out.ts", "src//f0"), "src//f0");
}

#[test]
fn relative_path_keeps_climbs_that_both_share() {
    assert_eq!(relative_path("../a/out.ts", "../a/f0"), "f0");
    assert_eq!(relative_path("../a/out.ts", "../b/f0"), "../b/f0");
}
