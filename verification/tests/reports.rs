use aster::index::{Indexer, ResourceFile, ResourceIndex};
use aster::report::{
    counts, declaring_files, denylist, filtered_unused_strings, unused_strings_without, Counts, Kind,
    UnrecognizedKind,
};
use aster::snapshot::CacheError;

fn file(path: &str, definitions: &[&str], usages: &[&str]) -> ResourceFile {
    ResourceFile {
        path: path.to_string(),
        string_definitions: definitions.iter().map(|id| id.to_string()).collect(),
        string_usages: usages.iter().map(|id| id.to_string()).collect(),
    }
}

fn sample() -> ResourceIndex {
    ResourceIndex::new(vec![
        file("res/b.xml", &["zeta", "alpha", "smile_emoji", "used_one"], &[]),
        file("res/a.xml", &["alpha", "Beta", "he_m2gender_x", "f1gender", "beta"], &["used_two"]),
        file("Main.java", &[], &["used_one", "absent"]),
    ])
}

fn indexer() -> Indexer {
    Indexer::new("src".to_string(), "res".to_string(), None, "cache".to_string())
}

#[test]
fn unused_strings_are_sorted_and_filtered() {
    assert_eq!(filtered_unused_strings(&sample()), vec!["Beta", "alpha", "beta", "zeta"]);
    assert!(filtered_unused_strings(&ResourceIndex::new(Vec::new())).is_empty());
}

#[test]
fn sorting_goes_by_code_points() {
    let index = ResourceIndex::new(vec![file("a", &["b", "ab", "a", "B", "\u{00e9}", "z", "a_", "a1"], &[])]);
    assert_eq!(
        filtered_unused_strings(&index),
        vec!["B", "a", "a1", "a_", "ab", "b", "z", "\u{00e9}"]
    );
}

#[test]
fn each_denied_word_keeps_an_identifier_out() {
    let index = ResourceIndex::new(vec![file(
        "a",
        &["emoji", "xemojix", "af1genderb", "m2gender_", "emoj", "gender", "f1_gender"],
        &[],
    )]);
    assert_eq!(filtered_unused_strings(&index), vec!["emoj", "f1_gender", "gender"]);
    assert_eq!(index.unused_strings().len(), 7);
}

#[test]
fn counts_of_an_index() {
    assert_eq!(counts(&sample()), Counts { defined: 8, used: 3, unused: 4 });
    assert_eq!(counts(&ResourceIndex::new(Vec::new())), Counts { defined: 0, used: 0, unused: 0 });
}

#[test]
fn declaring_files_of_the_unused_strings() {
    let index = sample();
    let unused = filtered_unused_strings(&index);
    let all = declaring_files(&index, &unused, "");
    let shown: Vec<(String, Vec<String>)> =
        all.into_iter().map(|entry| (entry.id, entry.files)).collect();
    assert_eq!(
        shown,
        vec![
            ("Beta".to_string(), vec!["res/a.xml".to_string()]),
            ("alpha".to_string(), vec!["res/b.xml".to_string(), "res/a.xml".to_string()]),
            ("beta".to_string(), vec!["res/a.xml".to_string()]),
            ("zeta".to_string(), vec!["res/b.xml".to_string()]),
        ]
    );
}

#[test]
fn declaring_files_by_prefix() {
    let index = sample();
    let unused = filtered_unused_strings(&index);
    let some = declaring_files(&index, &unused, "be");
    assert_eq!(some.len(), 1);
    assert_eq!(some[0].id, "beta");
    assert_eq!(some[0].files, vec!["res/a.xml"]);
    assert!(declaring_files(&index, &unused, "nothing").is_empty());
    let undeclared = declaring_files(&index, &vec!["ghost".to_string()], "gh");
    assert_eq!(undeclared.len(), 1);
    assert!(undeclared[0].files.is_empty());
}

#[test]
fn kinds_by_name() {
    assert_eq!(Kind::from_str("defined"), Ok(Kind::Defined));
    assert_eq!(Kind::from_str("used"), Ok(Kind::Used));
    assert_eq!(Kind::from_str("unused"), Ok(Kind::Unused));
    assert_eq!(Kind::from_str("Unused"), Err(UnrecognizedKind));
    assert_eq!(Kind::from_str(""), Err(UnrecognizedKind));
}

#[test]
fn snapshot_gives_back_the_index() {
    let indexer = indexer();
    let index = sample();
    let bytes = indexer.serialize(&index).unwrap();
    let loaded = indexer.deserialize(&bytes).unwrap();
    assert_eq!(loaded.files().len(), 3);
    for (before, after) in index.files().iter().zip(loaded.files().iter()) {
        assert_eq!(before.path, after.path);
        assert_eq!(before.string_definitions, after.string_definitions);
        assert_eq!(before.string_usages, after.string_usages);
    }
    assert_eq!(counts(&loaded), counts(&index));
    assert_eq!(filtered_unused_strings(&loaded), filtered_unused_strings(&index));
    let lists = loaded.files_for_definition();
    assert_eq!(lists.get_vec("alpha"), index.files_for_definition().get_vec("alpha"));
}

#[test]
fn snapshot_bytes_of_a_small_index() {
    let index = ResourceIndex::new(vec![file("p", &["ab"], &[])]);
    let bytes = indexer().serialize(&index).unwrap();
    let mut expected: Vec<u8> = Vec::new();
    expected.extend_from_slice(&1u64.to_le_bytes());
    expected.extend_from_slice(&1u64.to_le_bytes());
    expected.push(b'p');
    expected.extend_from_slice(&1u64.to_le_bytes());
    expected.extend_from_slice(&2u64.to_le_bytes());
    expected.extend_from_slice(b"ab");
    expected.extend_from_slice(&0u64.to_le_bytes());
    assert_eq!(bytes, expected);
    assert_eq!(indexer().serialize(&ResourceIndex::new(Vec::new())).unwrap(), 0u64.to_le_bytes().to_vec());
}

#[test]
fn bytes_that_are_no_snapshot_are_turned_down() {
    assert_eq!(indexer().deserialize(&[1, 2, 3]).err(), Some(CacheError::Undecodable));
    assert_eq!(indexer().deserialize(&[]).err(), Some(CacheError::Undecodable));
    let truncated = {
        let mut bytes = indexer().serialize(&sample()).unwrap();
        bytes.truncate(bytes.len() - 1);
        bytes
    };
    assert_eq!(indexer().deserialize(&truncated).err(), Some(CacheError::Undecodable));
}

#[test]
fn the_words_that_deny_can_be_given() {
    let index = sample();
    assert_eq!(denylist(), vec!["emoji", "f1gender", "m2gender"]);
    assert_eq!(unused_strings_without(&index, &denylist()), filtered_unused_strings(&index));
    assert_eq!(
        unused_strings_without(&index, &Vec::new()),
        vec!["Beta", "alpha", "beta", "f1gender", "he_m2gender_x", "smile_emoji", "zeta"]
    );
    assert_eq!(
        unused_strings_without(&index, &vec!["eta".to_string(), "m2".to_string()]),
        vec!["alpha", "f1gender", "smile_emoji"]
    );
    assert!(unused_strings_without(&index, &vec!["".to_string()]).is_empty());
}
