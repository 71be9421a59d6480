use aster::extract::{keep_captured, IndexError};
use aster::index::{
    FileKind, Indexer, ResourceFile, ResourceIndex, WalkStage, CACHE_FILE_NAME, WALK_THREADS,
};
use aster::report::counts;
use aster::tokens::tokenize;

fn file(path: &str, definitions: &[&str], usages: &[&str]) -> ResourceFile {
    ResourceFile {
        path: path.to_string(),
        string_definitions: definitions.iter().map(|id| id.to_string()).collect(),
        string_usages: usages.iter().map(|id| id.to_string()).collect(),
    }
}

fn indexer(manifest_root: Option<&str>) -> Indexer {
    Indexer::new(
        "src".to_string(),
        "res".to_string(),
        manifest_root.map(|root| root.to_string()),
        "cache".to_string(),
    )
}

#[test]
fn test_index_java_with_multiple_refs_single_line() {
    let content = r"
            class Cool {
                int values = [ R.string.foo, R.string.bar ];
            }
        ";
    let result = Indexer::index_source_file("Test.java", content.as_bytes()).unwrap();

    assert_eq!(result.string_usages.len(), 2);
    assert!(result.string_usages.contains(&"foo".to_string()));
    assert!(result.string_usages.contains(&"bar".to_string()));
}

#[test]
fn test_index_manifest_files() {
    let manifest = Indexer::index_xml_file(
        "manifest/AndroidManifest.xml",
        r#"<manifest><application label="@string/some_app"></application></manifest>"#.as_bytes(),
    )
    .unwrap();
    let strings = Indexer::index_xml_file(
        "res/strings.xml",
        r#"<resources><string name="some_app" value="My App" /></resources>"#.as_bytes(),
    )
    .unwrap();
    let indexer = indexer(Some("manifest"));

    let index = indexer.index(vec![strings], vec![manifest], Vec::new());

    assert_eq!(index.defined_strings().contains(&"some_app".to_string()), true);
    assert_eq!(index.used_strings().contains(&"some_app".to_string()), true);
    assert_eq!(index.unused_strings().is_empty(), true);
}

#[test]
fn index_then_counts_of_one_declared_and_referenced_string() {
    let manifest = Indexer::index_xml_file(
        "manifest/AndroidManifest.xml",
        r#"<manifest><application label="@string/some_app"></application></manifest>"#.as_bytes(),
    )
    .unwrap();
    let strings = Indexer::index_xml_file(
        "res/strings.xml",
        r#"<resources><string name="some_app" value="My App" /></resources>"#.as_bytes(),
    )
    .unwrap();
    let index = indexer(Some("manifest")).index(vec![strings], vec![manifest], Vec::new());
    let counted = counts(&index);
    assert_eq!((counted.defined, counted.used, counted.unused), (1, 1, 0));
}

#[test]
fn source_usages_come_in_order_line_by_line() {
    let content = "a(R.string.one);\nnothing here\nb(R.string.two, R.string.three) // R.string.one\n";
    let result = Indexer::index_source_file("A.kt", content.as_bytes()).unwrap();
    assert_eq!(result.path, "A.kt");
    assert!(result.string_definitions.is_empty());
    assert_eq!(result.string_usages, vec!["one", "two", "three", "one"]);
}

#[test]
fn source_without_references_gives_an_empty_record() {
    let result = Indexer::index_source_file("B.java", b"class B {}\n").unwrap();
    assert!(result.string_usages.is_empty());
    assert!(result.string_definitions.is_empty());
    let empty = Indexer::index_source_file("C.java", b"").unwrap();
    assert!(empty.string_usages.is_empty());
}

#[test]
fn source_identifier_is_the_captured_group() {
    let content = "x = R.string.caf\u{00e9}_1; y = \u{00e9}R.string.\u{00fc}ber-R.string.z9;";
    let result = Indexer::index_source_file("D.java", content.as_bytes()).unwrap();
    assert_eq!(result.string_usages, vec!["caf\u{00e9}_1", "\u{00fc}ber", "z9"]);
}

#[test]
fn source_prefix_is_taken_letter_for_letter() {
    let none = Indexer::index_source_file("F.java", b"int a = RXstringYfoo;\n").unwrap();
    assert!(none.string_usages.is_empty());
    let content = "a(RXstringYa, R.string.b);\nR_string_c r.string.d R.String.e R.string. R.strings.f\n";
    let result = Indexer::index_source_file("G.java", content.as_bytes()).unwrap();
    assert_eq!(result.string_usages, vec!["b"]);
    let repeated = Indexer::index_source_file("H.kt", b"R.string.x R.string.x\nR.string.x").unwrap();
    assert_eq!(repeated.string_usages, vec!["x", "x", "x"]);
}

#[test]
fn source_line_that_is_not_utf8_cannot_be_searched() {
    let content = b"R.string.foo \xff\n";
    match Indexer::index_source_file("E.java", content) {
        Err(IndexError::Unsearchable { path }) => assert_eq!(path, "E.java"),
        _ => panic!("the search should have failed"),
    }
}

#[test]
fn keep_captured_drops_what_was_not_captured() {
    let mut usages = vec!["first".to_string()];
    keep_captured(&mut usages, &vec![Some("a".to_string()), None, Some("b".to_string())]);
    assert_eq!(usages, vec!["first", "a", "b"]);
    keep_captured(&mut usages, &Vec::new());
    assert_eq!(usages.len(), 3);
}

#[test]
fn one_string_element_is_one_declaration_and_no_usage() {
    let content = "<resources>\n  <string name=\"X\">some text</string>\n  <color name=\"c\">#fff</color>\n</resources>";
    let result = Indexer::index_xml_file("res/values/strings.xml", content.as_bytes()).unwrap();
    assert_eq!(result.path, "res/values/strings.xml");
    assert_eq!(result.string_definitions, vec!["X"]);
    assert!(result.string_usages.is_empty());
}

#[test]
fn xml_usages_come_from_attribute_values_and_cdata() {
    let content = "<layout>\n<TextView text=\"@string/title\" hint=\"@string/hint and @string/more\" id=\"@id/x\"/>\n<![CDATA[see @string/in_cdata]]>\n<note>@string/in_text</note>\n</layout>";
    let result = Indexer::index_xml_file("res/layout/a.xml", content.as_bytes()).unwrap();
    assert!(result.string_definitions.is_empty());
    assert_eq!(result.string_usages, vec!["title", "hint", "in_cdata"]);
}

#[test]
fn one_element_can_declare_and_reference() {
    let content = "<resources><string name=\"alias\" value=\"@string/target\"/><string name=\"@string/odd\"/></resources>";
    let result = Indexer::index_xml_file("res/values/a.xml", content.as_bytes()).unwrap();
    assert_eq!(result.string_definitions, vec!["alias", "@string/odd"]);
    assert_eq!(result.string_usages, vec!["target", "odd"]);
}

#[test]
fn marker_without_an_identifier_is_no_usage() {
    let content = "<a b=\"@string\" c=\"@string/\" d=\"string/x\"/>";
    let result = Indexer::index_xml_file("a.xml", content.as_bytes()).unwrap();
    assert!(result.string_usages.is_empty());
}

#[test]
fn malformed_xml_names_the_file() {
    match Indexer::index_xml_file("res/bad.xml", b"<resources><string name=\"a\">") {
        Err(IndexError::MalformedXml { path, message }) => {
            assert_eq!(path, "res/bad.xml");
            assert!(!message.is_empty());
        }
        _ => panic!("the file should have been turned down"),
    }
}

#[test]
fn index_xml_tokens_reads_what_tokenize_gave() {
    let tokens = tokenize(b"<resources><string name=\"a\"/><x y=\"@string/b\"/></resources>");
    let result = Indexer::index_xml_tokens("p", &tokens).unwrap();
    assert_eq!(result.string_definitions, vec!["a"]);
    assert_eq!(result.string_usages, vec!["b"]);
    let nothing = Indexer::index_xml_tokens("q", &Vec::new()).unwrap();
    assert!(nothing.string_definitions.is_empty() && nothing.string_usages.is_empty());
}

#[test]
fn declared_once_and_never_referenced_is_unused() {
    let index = ResourceIndex::new(vec![file("res/a.xml", &["X"], &[]), file("A.java", &[], &["Y"])]);
    let unused = index.unused_strings();
    assert_eq!(unused.len(), 1);
    assert!(unused.contains("X"));
    assert!(index.defined_strings().contains("X"));
    assert!(!index.defined_strings().contains("Y"));
    assert!(index.used_strings().contains("Y"));
    assert!(!index.used_strings().contains("X"));
}

#[test]
fn referenced_from_another_file_is_not_unused() {
    let index = ResourceIndex::new(vec![
        file("res/a.xml", &["X", "Z"], &[]),
        file("res/b.xml", &["X"], &[]),
        file("A.java", &[], &["X"]),
    ]);
    let unused = index.unused_strings();
    assert!(!unused.contains("X"));
    assert!(unused.contains("Z"));
    assert_eq!(unused.len(), 1);
    assert_eq!(index.defined_strings().len(), 2);
    assert_eq!(index.used_strings().len(), 1);
}

#[test]
fn empty_index_has_nothing() {
    let index = ResourceIndex::new(Vec::new());
    assert!(index.defined_strings().is_empty());
    assert!(index.used_strings().is_empty());
    assert!(index.unused_strings().is_empty());
    assert!(index.files_for_definition().is_empty());
    assert!(index.files().is_empty());
}

#[test]
fn file_lists_keep_order_and_repeats() {
    let index = ResourceIndex::new(vec![
        file("one.xml", &["a", "b", "a"], &["c"]),
        file("two.xml", &["b"], &["c", "a"]),
        file("three.xml", &["a"], &[]),
    ]);
    let definitions = index.files_for_definition();
    assert_eq!(
        definitions.get_vec("a"),
        Some(&vec!["one.xml".to_string(), "one.xml".to_string(), "three.xml".to_string()])
    );
    assert_eq!(definitions.get_vec("b"), Some(&vec!["one.xml".to_string(), "two.xml".to_string()]));
    assert_eq!(definitions.get_vec("c"), None);
    assert_eq!(definitions.len(), 2);
    let usages = index.files_for_usage();
    assert_eq!(usages.get_vec("c"), Some(&vec!["one.xml".to_string(), "two.xml".to_string()]));
    assert_eq!(usages.get_vec("a"), Some(&vec!["two.xml".to_string()]));
    assert_eq!(usages.get_vec("b"), None);
}

#[test]
fn manifest_root_defaults_to_the_resource_root() {
    let indexer = indexer(None);
    assert_eq!(indexer.manifest_root(), "res");
    assert_eq!(indexer.res_root(), "res");
    assert_eq!(indexer.java_root(), "src");
    assert_eq!(indexer.cache_dir(), "cache");
    let walks = indexer.walks();
    assert_eq!(walks.len(), 2);
    assert_eq!((walks[0].root.as_str(), walks[0].stage), ("res", WalkStage::Resources));
    assert_eq!(walks[0].globs, vec!["*.xml"]);
    assert_eq!((walks[1].root.as_str(), walks[1].stage), ("src", WalkStage::Sources));
    assert_eq!(walks[1].globs, vec!["*.java", "*.kt"]);
}

#[test]
fn manifests_elsewhere_get_a_walk_of_their_own() {
    let indexer = indexer(Some("app"));
    assert_eq!(indexer.manifest_root(), "app");
    let walks = indexer.walks();
    assert_eq!(walks.len(), 3);
    assert_eq!((walks[0].root.as_str(), walks[0].stage), ("res", WalkStage::Resources));
    assert_eq!((walks[1].root.as_str(), walks[1].stage), ("app", WalkStage::Manifests));
    assert_eq!(walks[1].globs, vec!["AndroidManifest.xml"]);
    assert_eq!((walks[2].root.as_str(), walks[2].stage), ("src", WalkStage::Sources));
    assert_eq!(WalkStage::Resources.kind(), FileKind::Markup);
    assert_eq!(WalkStage::Manifests.kind(), FileKind::Markup);
    assert_eq!(WalkStage::Sources.kind(), FileKind::Source);
    assert!(FileKind::Markup.reports_failures());
    assert!(!FileKind::Source.reports_failures());
}

#[test]
fn index_puts_sources_first() {
    let paths = |index: &ResourceIndex| -> Vec<String> {
        index.files().iter().map(|file| file.path.clone()).collect()
    };
    let found = || {
        (
            vec![file("r1", &["a"], &[]), file("r2", &[], &[])],
            vec![file("m1", &[], &["a"])],
            vec![file("s1", &[], &[]), file("s2", &[], &[])],
        )
    };
    let (resources, manifests, sources) = found();
    let index = indexer(Some("app")).index(resources, manifests, sources);
    assert_eq!(paths(&index), vec!["s1", "s2", "r1", "r2", "m1"]);
    let (resources, manifests, sources) = found();
    let index = indexer(None).index(resources, manifests, sources);
    assert_eq!(paths(&index), vec!["s1", "s2", "r1", "r2"]);
    let (resources, manifests, sources) = found();
    let index = indexer(Some("res")).index(resources, manifests, sources);
    assert_eq!(paths(&index), vec!["s1", "s2", "r1", "r2"]);
}

#[test]
fn each_kind_of_file_has_its_extractor() {
    let content = b"<a b=\"@string/x\">R.string.y</a>";
    let markup = Indexer::index_file(FileKind::Markup, "f", content).unwrap();
    assert_eq!(markup.string_usages, vec!["x"]);
    let source = Indexer::index_file(FileKind::Source, "f", content).unwrap();
    assert_eq!(source.string_usages, vec!["y"]);
    assert!(Indexer::index_file(FileKind::Markup, "f", b"R.string.y").is_err());
}

#[test]
fn the_snapshot_and_the_workers_are_fixed() {
    assert_eq!(CACHE_FILE_NAME, "res_cache.bin");
    assert_eq!(WALK_THREADS, 36);
}
