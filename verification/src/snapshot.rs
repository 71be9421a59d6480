//! The snapshot of an index: its records in the binary encoding of the
//! `bincode` crate.

use crate::index::{
    defined_ids, file_lists, unused_ids, used_ids, Fact, FileView, Indexer, ResourceFile,
    ResourceIndex,
};
use crate::text::clone_strings;
use vstd::prelude::*;

verus! {

/// `bincode::ErrorKind`: why bytes could not be written or read.
#[verifier::external_type_specification]
#[verifier::external_body]
pub struct ExBincodeError(bincode::ErrorKind);

/// The bytes that `bincode::serialize` gives for a list of records, each a
/// path, the declared and the referenced identifiers.
pub uninterp spec fn encoding_of(records: Seq<(Seq<char>, Seq<Seq<char>>, Seq<Seq<char>>)>) -> Seq<
    u8,
>;

/// The list of records that `bincode::deserialize` reads from the bytes;
/// `None` where it fails.
pub uninterp spec fn decoding_of(bytes: Seq<u8>) -> Option<
    Seq<(Seq<char>, Seq<Seq<char>>, Seq<Seq<char>>)>,
>;

/// `bincode::serialize` on a list of records. Without a limit on the size,
/// and writing to memory, it does not fail on a list of strings; and what it
/// encodes, `bincode::deserialize` decodes to the same list.
#[verifier::external_body]
fn encode(records: &Vec<(String, Vec<String>, Vec<String>)>) -> (encoded: Result<
    Vec<u8>,
    Box<bincode::ErrorKind>,
>)
    ensures
        encoded is Ok,
        encoded matches Ok(bytes) ==> encoding_of(records.deep_view()) == bytes@,
        encoded matches Ok(bytes) ==> decoding_of(bytes@) == Some(records.deep_view()),
{
    bincode::serialize(records)
}

/// `bincode::deserialize` to a list of records.
#[verifier::external_body]
fn decode(bytes: &[u8]) -> (decoded: Result<
    Vec<(String, Vec<String>, Vec<String>)>,
    Box<bincode::ErrorKind>,
>)
    ensures
        decoded matches Ok(records) ==> decoding_of(bytes@) == Some(records.deep_view()),
        decoded is Err ==> decoding_of(bytes@) is None,
{
    bincode::deserialize(bytes)
}

/// Why a snapshot could not be written or read.
#[derive(Debug, Clone, Copy, PartialEq, Eq, Structural)]
pub enum CacheError {
    /// The encoder reported a failure. It has none to report on records,
    /// which are lists of strings.
    Unencodable,
    /// The bytes are not the encoding of a list of records.
    Undecodable,
}

/// A record as the snapshot holds it.
pub open spec fn record_of(file: FileView) -> (Seq<char>, Seq<Seq<char>>, Seq<Seq<char>>) {
    (file.path, file.definitions, file.usages)
}

/// The record that the snapshot holds, as a file's record.
pub open spec fn file_of(record: (Seq<char>, Seq<Seq<char>>, Seq<Seq<char>>)) -> FileView {
    FileView { path: record.0, definitions: record.1, usages: record.2 }
}

/// The records of an index as the snapshot holds them.
pub open spec fn records_of(files: Seq<FileView>) -> Seq<
    (Seq<char>, Seq<Seq<char>>, Seq<Seq<char>>),
> {
    files.map_values(|file: FileView| record_of(file))
}

/// The records of an index, from those that a snapshot holds.
pub open spec fn files_of(records: Seq<(Seq<char>, Seq<Seq<char>>, Seq<Seq<char>>)>) -> Seq<
    FileView,
> {
    records.map_values(|record: (Seq<char>, Seq<Seq<char>>, Seq<Seq<char>>)| file_of(record))
}

/// What `serialize` returns for an index: the encoding of its records, from
/// which they can be decoded again. Encoding does not fail.
pub open spec fn saves(files: Seq<FileView>, saved: Result<Vec<u8>, CacheError>) -> bool {
    &&& saved matches Ok(written)
    &&& written@ == encoding_of(records_of(files))
    &&& decoding_of(written@) == Some(records_of(files))
}

/// What `deserialize` returns for the bytes of a snapshot.
pub open spec fn loads(bytes: Seq<u8>, loaded: Result<ResourceIndex, CacheError>) -> bool {
    match decoding_of(bytes) {
        Some(records) => {
            &&& loaded matches Ok(index)
            &&& index@ == files_of(records)
        },
        None => loaded matches Err(CacheError::Undecodable),
    }
}

impl Indexer {
    /// The bytes of the snapshot of an index.
    pub fn serialize(&self, index: &ResourceIndex) -> (saved: Result<Vec<u8>, CacheError>)
        ensures
            saves(index@, saved),
    {
        let files = index.files();
        let mut records: Vec<(String, Vec<String>, Vec<String>)> = Vec::new();
        let mut i: usize = 0;
        assert(records.deep_view() =~= records_of(index@.take(0)));
        while i < files.len()
            invariant
                i <= files.len(),
                files.deep_view() == index@,
                records.deep_view() == records_of(index@.take(i as int)),
            decreases files.len() - i,
        {
            let file = &files[i];
            let ghost before = records.deep_view();
            let record = (
                file.path.clone(),
                clone_strings(&file.string_definitions),
                clone_strings(&file.string_usages),
            );
            assert(record.deep_view() == record_of(file@));
            records.push(record);
            proof {
                assert(records.deep_view() =~= before.push(record_of(file@)));
                assert(index@.take(i + 1) =~= index@.take(i as int).push(file@));
                assert(records.deep_view() =~= records_of(index@.take(i + 1)));
            }
            i += 1;
        }
        assert(index@.take(i as int) =~= index@);
        match encode(&records) {
            Ok(bytes) => Ok(bytes),
            Err(_) => Err(CacheError::Unencodable),
        }
    }

    /// The index that the bytes of a snapshot hold.
    pub fn deserialize(&self, bytes: &[u8]) -> (loaded: Result<ResourceIndex, CacheError>)
        ensures
            loads(bytes@, loaded),
    {
        let mut records = match decode(bytes) {
            Ok(records) => records,
            Err(_) => {
                return Err(CacheError::Undecodable);
            },
        };
        let ghost held = records.deep_view();
        let mut files: Vec<ResourceFile> = Vec::new();
        let mut i: usize = 0;
        assert(files.deep_view() =~= files_of(held.take(0)));
        while i < records.len()
            invariant
                i <= records.len(),
                held == records.deep_view(),
                files.deep_view() == files_of(held.take(i as int)),
            decreases records.len() - i,
        {
            let record = &records[i];
            let ghost before = files.deep_view();
            let file = ResourceFile {
                path: record.0.clone(),
                string_definitions: clone_strings(&record.1),
                string_usages: clone_strings(&record.2),
            };
            assert(record.deep_view() == held[i as int]);
            assert(file@ == file_of(held[i as int]));
            files.push(file);
            proof {
                assert(files.deep_view() =~= before.push(file_of(held[i as int])));
                assert(held.take(i + 1) =~= held.take(i as int).push(held[i as int]));
                assert(files.deep_view() =~= files_of(held.take(i + 1)));
            }
            i += 1;
        }
        assert(held.take(i as int) =~= held);
        Ok(ResourceIndex::new(files))
    }
}

/// A snapshot gives back what was saved: the index loaded from the bytes that
/// `serialize` returned has the records of the index that was saved, so the
/// same identifiers are defined, used and unused in it, with the same lists
/// of files.
pub proof fn lemma_snapshot_round_trip(
    files: Seq<FileView>,
    saved: Result<Vec<u8>, CacheError>,
    loaded: Result<ResourceIndex, CacheError>,
)
    requires
        saves(files, saved),
        saved matches Ok(bytes) && loads(bytes@, loaded),
    ensures
        loaded matches Ok(index) && {
            &&& index@ == files
            &&& defined_ids(index@) == defined_ids(files)
            &&& used_ids(index@) == used_ids(files)
            &&& unused_ids(index@) == unused_ids(files)
            &&& file_lists(index@, Fact::Definition) == file_lists(files, Fact::Definition)
            &&& file_lists(index@, Fact::Usage) == file_lists(files, Fact::Usage)
        },
{
    assert(files_of(records_of(files)) =~= files);
}

} // verus!
