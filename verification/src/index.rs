//! The index: which file declares and which file references each string
//! identifier, and what follows from that.

use crate::file_lists::{insert, multimap_entries, new_multimap};
use multimap::MultiMap;
use vstd::hash_set::StringHashSet;
use vstd::prelude::*;

verus! {

/// What one scanned file holds: the identifiers it declares and those it
/// references, each in the order of occurrence and as often as it occurs.
pub struct ResourceFile {
    pub path: String,
    pub string_definitions: Vec<String>,
    pub string_usages: Vec<String>,
}

/// A record as the contracts see it.
pub struct FileView {
    pub path: Seq<char>,
    pub definitions: Seq<Seq<char>>,
    pub usages: Seq<Seq<char>>,
}

impl View for ResourceFile {
    type V = FileView;

    open spec fn view(&self) -> FileView {
        FileView {
            path: self.path@,
            definitions: self.string_definitions.deep_view(),
            usages: self.string_usages.deep_view(),
        }
    }
}

impl DeepView for ResourceFile {
    type V = FileView;

    open spec fn deep_view(&self) -> FileView {
        self@
    }
}

/// The two kinds of fact that a file holds about an identifier.
#[derive(Debug, Clone, Copy, PartialEq, Eq, Structural)]
pub enum Fact {
    Definition,
    Usage,
}

impl FileView {
    /// The identifiers that the file declares, or those that it references.
    pub open spec fn ids(self, fact: Fact) -> Seq<Seq<char>> {
        match fact {
            Fact::Definition => self.definitions,
            Fact::Usage => self.usages,
        }
    }
}

/// Some file holds the fact about `id`.
pub open spec fn mentions(files: Seq<FileView>, fact: Fact, id: Seq<char>) -> bool {
    exists|i: int| 0 <= i < files.len() && (#[trigger] files[i]).ids(fact).contains(id)
}

/// The identifiers about which some file holds the fact.
pub open spec fn id_set(files: Seq<FileView>, fact: Fact) -> Set<Seq<char>> {
    Set::new(|id: Seq<char>| mentions(files, fact, id))
}

/// The identifiers that some file declares.
pub open spec fn defined_ids(files: Seq<FileView>) -> Set<Seq<char>> {
    id_set(files, Fact::Definition)
}

/// The identifiers that some file references.
pub open spec fn used_ids(files: Seq<FileView>) -> Set<Seq<char>> {
    id_set(files, Fact::Usage)
}

/// The identifiers that are declared and nowhere referenced.
pub open spec fn unused_ids(files: Seq<FileView>) -> Set<Seq<char>> {
    defined_ids(files).difference(used_ids(files))
}

/// `path`, once for each occurrence of `id` in `ids`.
pub open spec fn listed(path: Seq<char>, ids: Seq<Seq<char>>, id: Seq<char>) -> Seq<Seq<char>>
    decreases ids.len(),
{
    if ids.len() == 0 {
        Seq::empty()
    } else {
        listed(path, ids.drop_last(), id) + if ids.last() == id {
            seq![path]
        } else {
            Seq::empty()
        }
    }
}

/// The paths of the files that hold the fact about `id`, in the order of the
/// files, each once for every occurrence in it.
pub open spec fn paths(files: Seq<FileView>, fact: Fact, id: Seq<char>) -> Seq<Seq<char>>
    decreases files.len(),
{
    if files.len() == 0 {
        Seq::empty()
    } else {
        paths(files.drop_last(), fact, id) + listed(
            files.last().path,
            files.last().ids(fact),
            id,
        )
    }
}

/// For each identifier about which some file holds the fact, the paths of
/// those files.
pub open spec fn file_lists(files: Seq<FileView>, fact: Fact) -> Map<Seq<char>, Seq<Seq<char>>> {
    Map::new(|id: Seq<char>| mentions(files, fact, id), |id: Seq<char>| paths(files, fact, id))
}

/// The state of a build of `file_lists` or `id_set` that has taken in all of
/// `files` and, of one more file at `path`, the identifiers `ids`.
pub open spec fn mentions_so_far(
    files: Seq<FileView>,
    fact: Fact,
    ids: Seq<Seq<char>>,
    id: Seq<char>,
) -> bool {
    mentions(files, fact, id) || ids.contains(id)
}

/// The lists of such a build.
pub open spec fn lists_so_far(
    files: Seq<FileView>,
    fact: Fact,
    path: Seq<char>,
    ids: Seq<Seq<char>>,
) -> Map<Seq<char>, Seq<Seq<char>>> {
    Map::new(
        |id: Seq<char>| mentions_so_far(files, fact, ids, id),
        |id: Seq<char>| paths(files, fact, id) + listed(path, ids, id),
    )
}

/// One more file is mentioned in: what the files before it mention, and
/// what it holds itself.
pub proof fn lemma_mentions_grows(files: Seq<FileView>, upto: int, fact: Fact, id: Seq<char>)
    requires
        0 <= upto < files.len(),
    ensures
        mentions(files.take(upto + 1), fact, id) <==> mentions_so_far(
            files.take(upto),
            fact,
            files[upto].ids(fact),
            id,
        ),
{
    let shorter = files.take(upto);
    let longer = files.take(upto + 1);
    if mentions(longer, fact, id) {
        let i = choose|i: int|
            0 <= i < longer.len() && (#[trigger] longer[i]).ids(fact).contains(id);
        if i < upto {
            assert(shorter[i] == longer[i]);
        }
    }
    if mentions(shorter, fact, id) {
        let i = choose|i: int|
            0 <= i < shorter.len() && (#[trigger] shorter[i]).ids(fact).contains(id);
        assert(longer[i] == shorter[i]);
    }
    if files[upto].ids(fact).contains(id) {
        assert(longer[upto] == files[upto]);
    }
}

proof fn lemma_listed_when_absent(path: Seq<char>, ids: Seq<Seq<char>>, id: Seq<char>)
    requires
        !ids.contains(id),
    ensures
        listed(path, ids, id) == Seq::<Seq<char>>::empty(),
    decreases ids.len(),
{
    if ids.len() > 0 {
        assert(ids.last() == ids[ids.len() - 1]);
        assert forall|j: int| 0 <= j < ids.drop_last().len() implies ids.drop_last()[j] != id by {
            assert(ids.drop_last()[j] == ids[j]);
        }
        lemma_listed_when_absent(path, ids.drop_last(), id);
    }
}

proof fn lemma_paths_when_unmentioned(files: Seq<FileView>, fact: Fact, id: Seq<char>)
    requires
        !mentions(files, fact, id),
    ensures
        paths(files, fact, id) == Seq::<Seq<char>>::empty(),
    decreases files.len(),
{
    if files.len() > 0 {
        let shorter = files.drop_last();
        assert(!files[files.len() - 1].ids(fact).contains(id));
        assert(!mentions(shorter, fact, id)) by {
            if mentions(shorter, fact, id) {
                let i = choose|i: int|
                    0 <= i < shorter.len() && (#[trigger] shorter[i]).ids(fact).contains(id);
                assert(files[i] == shorter[i]);
            }
        }
        lemma_paths_when_unmentioned(shorter, fact, id);
        lemma_listed_when_absent(files.last().path, files.last().ids(fact), id);
    }
}

/// The records of a set of scanned files.
pub struct ResourceIndex {
    files: Vec<ResourceFile>,
}

impl View for ResourceIndex {
    type V = Seq<FileView>;

    closed spec fn view(&self) -> Seq<FileView> {
        self.files.deep_view()
    }
}

impl ResourceIndex {
    /// An index over the given records, in their order.
    pub fn new(files: Vec<ResourceFile>) -> (index: ResourceIndex)
        ensures
            index@ == files.deep_view(),
    {
        ResourceIndex { files }
    }

    /// The records that the index was built from.
    pub fn files(&self) -> (files: &Vec<ResourceFile>)
        ensures
            files.deep_view() == self@,
    {
        &self.files
    }

    fn ids_of(file: &ResourceFile, fact: Fact) -> (ids: &Vec<String>)
        ensures
            ids.deep_view() == file@.ids(fact),
    {
        match fact {
            Fact::Definition => &file.string_definitions,
            Fact::Usage => &file.string_usages,
        }
    }

    fn lists_of(&self, fact: Fact) -> (lists: MultiMap<String, String>)
        ensures
            multimap_entries(lists) == file_lists(self@, fact),
    {
        let mut lists = new_multimap();
        let mut i: usize = 0;
        assert(multimap_entries(lists) =~= file_lists(self@.take(0), fact));
        while i < self.files.len()
            invariant
                i <= self.files.len(),
                multimap_entries(lists) == file_lists(self@.take(i as int), fact),
            decreases self.files.len() - i,
        {
            let file = &self.files[i];
            let ids = Self::ids_of(file, fact);
            let ghost before = self@.take(i as int);
            let mut j: usize = 0;
            proof {
                assert(multimap_entries(lists) =~= lists_so_far(
                    before,
                    fact,
                    file.path@,
                    ids.deep_view().take(0),
                ));
            }
            while j < ids.len()
                invariant
                    j <= ids.len(),
                    i < self.files.len(),
                    before == self@.take(i as int),
                    file@ == self@[i as int],
                    ids.deep_view() == file@.ids(fact),
                    multimap_entries(lists) == lists_so_far(
                        before,
                        fact,
                        file.path@,
                        ids.deep_view().take(j as int),
                    ),
                decreases ids.len() - j,
            {
                let ghost held = multimap_entries(lists);
                let ghost seen = ids.deep_view().take(j as int);
                let ghost more = ids.deep_view().take(j + 1);
                let ghost key = ids[j as int]@;
                insert(&mut lists, ids[j].clone(), file.path.clone());
                proof {
                    assert(more.drop_last() =~= seen);
                    assert(more.last() == key);
                    assert(more =~= seen.push(key));
                    if !held.contains_key(key) {
                        lemma_paths_when_unmentioned(before, fact, key);
                        lemma_listed_when_absent(file.path@, seen, key);
                    }
                    assert forall|id: Seq<char>| #[trigger]
                        mentions_so_far(before, fact, more, id) <==> (id == key || mentions_so_far(
                            before,
                            fact,
                            seen,
                            id,
                        )) by {
                        if seen.contains(id) {
                            let k = choose|k: int| 0 <= k < seen.len() && seen[k] == id;
                            assert(more[k] == id);
                        }
                        if more.contains(id) && id != key {
                            let k = choose|k: int| 0 <= k < more.len() && more[k] == id;
                            assert(seen[k] == id);
                        }
                        assert(more[j as int] == key);
                    }
                    assert forall|id: Seq<char>|
                        mentions_so_far(before, fact, more, id) implies #[trigger] multimap_entries(
                        lists,
                    )[id] == paths(before, fact, id) + listed(file.path@, more, id) by {
                        let tail = if key == id {
                            seq![file.path@]
                        } else {
                            Seq::empty()
                        };
                        assert(listed(file.path@, more, id) == listed(file.path@, seen, id) + tail);
                        assert(paths(before, fact, id) + (listed(file.path@, seen, id) + tail) =~= (
                        paths(before, fact, id) + listed(file.path@, seen, id)) + tail);
                        if id == key {
                            assert(multimap_entries(lists)[id] =~= paths(before, fact, id) + listed(
                                file.path@,
                                seen,
                                id,
                            ) + tail);
                        }
                    }
                    assert(multimap_entries(lists) =~= lists_so_far(
                        before,
                        fact,
                        file.path@,
                        more,
                    ));
                }
                j += 1;
            }
            proof {
                assert(ids.deep_view().take(j as int) =~= ids.deep_view());
                assert(self@.take(i + 1).drop_last() =~= before);
                assert(self@.take(i + 1).last() == file@);
                assert forall|id: Seq<char>|
                    mentions(self@.take(i + 1), fact, id) <==> mentions_so_far(
                        before,
                        fact,
                        ids.deep_view(),
                        id,
                    ) by {
                    lemma_mentions_grows(self@, i as int, fact, id);
                }
                assert(multimap_entries(lists) =~= file_lists(self@.take(i + 1), fact));
            }
            i += 1;
        }
        assert(self@.take(i as int) =~= self@);
        lists
    }

    /// For each declared identifier, the paths of the files that declare it.
    pub fn files_for_definition(&self) -> (lists: MultiMap<String, String>)
        ensures
            multimap_entries(lists) == file_lists(self@, Fact::Definition),
    {
        self.lists_of(Fact::Definition)
    }

    /// For each referenced identifier, the paths of the files that reference
    /// it.
    pub fn files_for_usage(&self) -> (lists: MultiMap<String, String>)
        ensures
            multimap_entries(lists) == file_lists(self@, Fact::Usage),
    {
        self.lists_of(Fact::Usage)
    }

    /// The identifiers about which some file holds the fact, but for those
    /// in `except`.
    fn set_of(&self, fact: Fact, except: &StringHashSet) -> (set: StringHashSet)
        ensures
            set@ == id_set(self@, fact).difference(except@),
    {
        let mut set = StringHashSet::new();
        let mut i: usize = 0;
        assert(set@ =~= id_set(self@.take(0), fact).difference(except@));
        while i < self.files.len()
            invariant
                i <= self.files.len(),
                set@ == id_set(self@.take(i as int), fact).difference(except@),
            decreases self.files.len() - i,
        {
            let file = &self.files[i];
            let ids = Self::ids_of(file, fact);
            let ghost before = self@.take(i as int);
            let mut j: usize = 0;
            assert(ids.deep_view().take(0) =~= Seq::<Seq<char>>::empty());
            while j < ids.len()
                invariant
                    j <= ids.len(),
                    forall|id: Seq<char>|
                        set@.contains(id) <==> mentions_so_far(
                            before,
                            fact,
                            ids.deep_view().take(j as int),
                            id,
                        ) && !except@.contains(id),
                decreases ids.len() - j,
            {
                let ghost seen = ids.deep_view().take(j as int);
                let ghost more = ids.deep_view().take(j + 1);
                let ghost key = ids[j as int]@;
                if !except.contains(ids[j].as_str()) {
                    set.insert(ids[j].clone());
                }
                proof {
                    assert(more =~= seen.push(key));
                    assert forall|id: Seq<char>|
                        set@.contains(id) <==> mentions_so_far(before, fact, more, id)
                            && !except@.contains(id) by {
                        if seen.contains(id) {
                            let k = choose|k: int| 0 <= k < seen.len() && seen[k] == id;
                            assert(more[k] == id);
                        }
                        if more.contains(id) && id != key {
                            let k = choose|k: int| 0 <= k < more.len() && more[k] == id;
                            assert(seen[k] == id);
                        }
                        assert(more[j as int] == key);
                    }
                }
                j += 1;
            }
            proof {
                assert(ids.deep_view().take(j as int) =~= ids.deep_view());
                assert forall|id: Seq<char>|
                    mentions(self@.take(i + 1), fact, id) <==> mentions_so_far(
                        before,
                        fact,
                        ids.deep_view(),
                        id,
                    ) by {
                    lemma_mentions_grows(self@, i as int, fact, id);
                }
                assert(set@ =~= id_set(self@.take(i + 1), fact).difference(except@));
            }
            i += 1;
        }
        assert(self@.take(i as int) =~= self@);
        set
    }

    /// The identifiers that some file declares.
    pub fn defined_strings(&self) -> (defined: StringHashSet)
        ensures
            defined@ == defined_ids(self@),
    {
        let nothing = StringHashSet::new();
        let defined = self.set_of(Fact::Definition, &nothing);
        assert(defined@ =~= defined_ids(self@));
        defined
    }

    /// The identifiers that some file references.
    pub fn used_strings(&self) -> (used: StringHashSet)
        ensures
            used@ == used_ids(self@),
    {
        let nothing = StringHashSet::new();
        let used = self.set_of(Fact::Usage, &nothing);
        assert(used@ =~= used_ids(self@));
        used
    }

    /// The identifiers that some file declares and none references.
    pub fn unused_strings(&self) -> (unused: StringHashSet)
        ensures
            unused@ == unused_ids(self@),
    {
        let used = self.used_strings();
        self.set_of(Fact::Definition, &used)
    }
}

/// An identifier is unused exactly when some file declares it and no file
/// references it, whichever files those are.
pub proof fn lemma_unused_is_declared_and_unreferenced(files: Seq<FileView>, id: Seq<char>)
    ensures
        unused_ids(files).contains(id) <==> mentions(files, Fact::Definition, id) && !mentions(
            files,
            Fact::Usage,
            id,
        ),
        (exists|i: int| 0 <= i < files.len() && #[trigger] files[i].usages.contains(id))
            ==> !unused_ids(files).contains(id),
        (exists|i: int| 0 <= i < files.len() && #[trigger] files[i].definitions.contains(id)) && (
        forall|i: int| 0 <= i < files.len() ==> !#[trigger] files[i].usages.contains(id))
            ==> unused_ids(files).contains(id),
{
    if exists|i: int| 0 <= i < files.len() && #[trigger] files[i].usages.contains(id) {
        let i = choose|i: int| 0 <= i < files.len() && #[trigger] files[i].usages.contains(id);
        assert(files[i].ids(Fact::Usage).contains(id));
    }
    if exists|i: int| 0 <= i < files.len() && #[trigger] files[i].definitions.contains(id) {
        let i = choose|i: int| 0 <= i < files.len() && #[trigger] files[i].definitions.contains(id);
        assert(files[i].ids(Fact::Definition).contains(id));
    }
    if mentions(files, Fact::Usage, id) {
        let i = choose|i: int|
            0 <= i < files.len() && (#[trigger] files[i]).ids(Fact::Usage).contains(id);
        assert(files[i].usages.contains(id));
    }
}

/// Each path in a list is the path of a file that holds the fact.
proof fn lemma_listed_paths_are_the_path(
    path: Seq<char>,
    ids: Seq<Seq<char>>,
    id: Seq<char>,
    k: int,
)
    requires
        0 <= k < listed(path, ids, id).len(),
    ensures
        listed(path, ids, id)[k] == path,
        ids.contains(id),
    decreases ids.len(),
{
    if ids.len() > 0 {
        let shorter = listed(path, ids.drop_last(), id);
        if k < shorter.len() {
            lemma_listed_paths_are_the_path(path, ids.drop_last(), id, k);
            let at = choose|at: int| 0 <= at < ids.drop_last().len() && ids.drop_last()[at] == id;
            assert(ids[at] == id);
        } else {
            assert(ids[ids.len() - 1] == id);
        }
    }
}

/// The roots that an indexing run walks, and the directory of its cache.
pub struct Indexer {
    java_root: String,
    res_root: String,
    manifest_root: String,
    cache_dir: String,
}

/// An indexer as the contracts see it.
pub struct IndexerView {
    pub java_root: Seq<char>,
    pub res_root: Seq<char>,
    pub manifest_root: Seq<char>,
    pub cache_dir: Seq<char>,
}

impl View for Indexer {
    type V = IndexerView;

    closed spec fn view(&self) -> IndexerView {
        IndexerView {
            java_root: self.java_root@,
            res_root: self.res_root@,
            manifest_root: self.manifest_root@,
            cache_dir: self.cache_dir@,
        }
    }
}

/// Which extractor reads the files of a walk.
#[derive(Debug, Clone, Copy, PartialEq, Eq, Structural)]
pub enum FileKind {
    /// Resource and manifest files: XML.
    Markup,
    /// Source files.
    Source,
}

impl FileKind {
    /// Whether a file of this kind that gives no record is worth a warning:
    /// a resource or manifest file is, a source file is passed over.
    pub open spec fn warns(self) -> bool {
        self == FileKind::Markup
    }

    /// Whether a file of this kind that gives no record is worth a warning.
    pub fn reports_failures(&self) -> (warned: bool)
        ensures
            warned == self.warns(),
    {
        match self {
            FileKind::Markup => true,
            FileKind::Source => false,
        }
    }
}

/// The walks of an indexing run.
#[derive(Debug, Clone, Copy, PartialEq, Eq, Structural)]
pub enum WalkStage {
    /// The resource files under the resource root.
    Resources,
    /// The manifest files under a manifest root of its own.
    Manifests,
    /// The source files under the source root.
    Sources,
}

impl WalkStage {
    /// Which extractor reads the files of this walk.
    pub open spec fn extractor(self) -> FileKind {
        match self {
            WalkStage::Sources => FileKind::Source,
            _ => FileKind::Markup,
        }
    }

    /// Which extractor reads the files of this walk.
    pub fn kind(&self) -> (kind: FileKind)
        ensures
            kind == self.extractor(),
    {
        match self {
            WalkStage::Sources => FileKind::Source,
            _ => FileKind::Markup,
        }
    }
}

/// One walk of a directory tree: the files under `root` whose names match
/// one of `globs`.
pub struct WalkRequest {
    pub root: String,
    pub globs: Vec<String>,
    pub stage: WalkStage,
}

/// A walk as the contracts see it.
pub struct WalkView {
    pub root: Seq<char>,
    pub globs: Seq<Seq<char>>,
    pub stage: WalkStage,
}

impl View for WalkRequest {
    type V = WalkView;

    open spec fn view(&self) -> WalkView {
        WalkView { root: self.root@, globs: self.globs.deep_view(), stage: self.stage }
    }
}

impl DeepView for WalkRequest {
    type V = WalkView;

    open spec fn deep_view(&self) -> WalkView {
        self@
    }
}

/// The names of resource files.
pub const RESOURCE_GLOB: &'static str = "*.xml";

/// The name of a manifest file.
pub const MANIFEST_GLOB: &'static str = "AndroidManifest.xml";

/// The names of Java source files.
pub const JAVA_GLOB: &'static str = "*.java";

/// The names of Kotlin source files.
pub const KOTLIN_GLOB: &'static str = "*.kt";

/// The name of the snapshot file in the cache directory.
pub const CACHE_FILE_NAME: &'static str = "res_cache.bin";

/// The number of workers of a walk.
pub const WALK_THREADS: usize = 36;

impl IndexerView {
    /// Manifests get a walk of their own unless they lie in the resource tree.
    pub open spec fn walks_manifests(self) -> bool {
        self.manifest_root != self.res_root
    }

    /// The walks of an indexing run, in their order: the resource tree, the
    /// manifest tree where it is another one, and the source tree.
    pub open spec fn walks(self) -> Seq<WalkView> {
        let resources = WalkView {
            root: self.res_root,
            globs: seq![RESOURCE_GLOB@],
            stage: WalkStage::Resources,
        };
        let manifests = WalkView {
            root: self.manifest_root,
            globs: seq![MANIFEST_GLOB@],
            stage: WalkStage::Manifests,
        };
        let sources = WalkView {
            root: self.java_root,
            globs: seq![JAVA_GLOB@, KOTLIN_GLOB@],
            stage: WalkStage::Sources,
        };
        if self.walks_manifests() {
            seq![resources, manifests, sources]
        } else {
            seq![resources, sources]
        }
    }

    /// The records of an index, from what the walks found: those of the
    /// source files first, then those of the resource files, then those of the
    /// manifest files where they had a walk of their own.
    pub open spec fn gathered(
        self,
        resources: Seq<FileView>,
        manifests: Seq<FileView>,
        sources: Seq<FileView>,
    ) -> Seq<FileView> {
        if self.walks_manifests() {
            sources + (resources + manifests)
        } else {
            sources + resources
        }
    }
}

impl Indexer {
    /// An indexer over the given roots. Without a manifest root, manifests
    /// are looked for under the resource root.
    pub fn new(
        java_root: String,
        res_root: String,
        manifest_root: Option<String>,
        cache_dir: String,
    ) -> (indexer: Indexer)
        ensures
            indexer@ == (IndexerView {
                java_root: java_root@,
                res_root: res_root@,
                manifest_root: match manifest_root {
                    Some(root) => root@,
                    None => res_root@,
                },
                cache_dir: cache_dir@,
            }),
    {
        let manifest_root = match manifest_root {
            Some(root) => root,
            None => res_root.clone(),
        };
        Indexer { java_root, res_root, manifest_root, cache_dir }
    }

    /// The root of the source tree.
    pub fn java_root(&self) -> (root: &String)
        ensures
            root@ == self@.java_root,
    {
        &self.java_root
    }

    /// The root of the resource tree.
    pub fn res_root(&self) -> (root: &String)
        ensures
            root@ == self@.res_root,
    {
        &self.res_root
    }

    /// The root of the manifest tree.
    pub fn manifest_root(&self) -> (root: &String)
        ensures
            root@ == self@.manifest_root,
    {
        &self.manifest_root
    }

    /// The directory that holds the snapshot.
    pub fn cache_dir(&self) -> (dir: &String)
        ensures
            dir@ == self@.cache_dir,
    {
        &self.cache_dir
    }

    fn walk_of(root: &String, stage: WalkStage, first: &str, second: Option<&str>) -> (walk:
        WalkRequest)
        ensures
            walk@ == (WalkView {
                root: root@,
                globs: match second {
                    Some(second) => seq![first@, second@],
                    None => seq![first@],
                },
                stage,
            }),
    {
        let mut globs: Vec<String> = Vec::new();
        globs.push(first.to_owned());
        assert(globs.deep_view() =~= seq![first@]);
        if let Some(second) = second {
            globs.push(second.to_owned());
            assert(globs.deep_view() =~= seq![first@, second@]);
        }
        WalkRequest { root: root.clone(), globs, stage }
    }

    /// The walks that an indexing run makes, in their order.
    pub fn walks(&self) -> (plan: Vec<WalkRequest>)
        ensures
            plan.deep_view() == self@.walks(),
    {
        let mut plan: Vec<WalkRequest> = Vec::new();
        plan.push(Self::walk_of(&self.res_root, WalkStage::Resources, RESOURCE_GLOB, None));
        if !(self.manifest_root == self.res_root) {
            plan.push(
                Self::walk_of(&self.manifest_root, WalkStage::Manifests, MANIFEST_GLOB, None),
            );
        }
        plan.push(Self::walk_of(&self.java_root, WalkStage::Sources, JAVA_GLOB, Some(KOTLIN_GLOB)));
        assert(plan.deep_view() =~= self@.walks());
        plan
    }

    /// Builds the index from what the walks found. What is handed in for the
    /// manifests counts only where they had a walk of their own.
    pub fn index(
        &self,
        resources: Vec<ResourceFile>,
        manifests: Vec<ResourceFile>,
        sources: Vec<ResourceFile>,
    ) -> (index: ResourceIndex)
        ensures
            index@ == self@.gathered(
                resources.deep_view(),
                manifests.deep_view(),
                sources.deep_view(),
            ),
    {
        let mut resources = resources;
        let mut manifests = manifests;
        let mut sources = sources;
        let ghost found_resources = resources.deep_view();
        let ghost found_manifests = manifests.deep_view();
        let ghost found_sources = sources.deep_view();
        if !(self.manifest_root == self.res_root) {
            resources.append(&mut manifests);
            assert(resources.deep_view() =~= found_resources + found_manifests);
        }
        let ghost markup = resources.deep_view();
        sources.append(&mut resources);
        assert(sources.deep_view() =~= found_sources + markup);
        ResourceIndex::new(sources)
    }
}

/// Some file at `path` holds the fact about `id`.
pub open spec fn holds_fact(files: Seq<FileView>, fact: Fact, id: Seq<char>, path: Seq<char>) -> bool {
    exists|i: int|
        0 <= i < files.len() && (#[trigger] files[i]).path == path && files[i].ids(fact).contains(
            id,
        )
}

/// The index invents nothing: the lists are kept for exactly the identifiers
/// that some file holds the fact about, no list is empty, and every path in
/// the list of an identifier is the path of a file that holds the fact about
/// it.
pub proof fn lemma_lists_come_from_files(files: Seq<FileView>, fact: Fact, id: Seq<char>)
    ensures
        file_lists(files, fact).dom() == id_set(files, fact),
        paths(files, fact, id).len() > 0 <==> mentions(files, fact, id),
        forall|k: int|
            0 <= k < paths(files, fact, id).len() ==> holds_fact(
                files,
                fact,
                id,
                #[trigger] paths(files, fact, id)[k],
            ),
    decreases files.len(),
{
    assert(file_lists(files, fact).dom() =~= id_set(files, fact));
    if files.len() == 0 {
    } else {
        let shorter = files.drop_last();
        let last = files.last();
        lemma_lists_come_from_files(shorter, fact, id);
        assert(shorter =~= files.take(files.len() - 1));
        lemma_mentions_grows(files, files.len() - 1, fact, id);
        assert(files.take(files.len() - 1 + 1) =~= files);
        if !last.ids(fact).contains(id) {
            lemma_listed_when_absent(last.path, last.ids(fact), id);
        } else {
            lemma_listed_when_present(last.path, last.ids(fact), id);
        }
        assert forall|k: int| 0 <= k < paths(files, fact, id).len() implies holds_fact(
            files,
            fact,
            id,
            #[trigger] paths(files, fact, id)[k],
        ) by {
            let before = paths(shorter, fact, id);
            if k < before.len() {
                assert(holds_fact(shorter, fact, id, before[k]));
                let i = choose|i: int|
                    0 <= i < shorter.len() && (#[trigger] shorter[i]).path == before[k]
                        && shorter[i].ids(fact).contains(id);
                assert(files[i] == shorter[i]);
            } else {
                lemma_listed_paths_are_the_path(last.path, last.ids(fact), id, k - before.len());
                assert(files[files.len() - 1] == last);
            }
        }
    }
}

proof fn lemma_listed_when_present(path: Seq<char>, ids: Seq<Seq<char>>, id: Seq<char>)
    requires
        ids.contains(id),
    ensures
        listed(path, ids, id).len() > 0,
    decreases ids.len(),
{
    if ids.len() > 0 && ids.last() != id {
        let at = choose|at: int| 0 <= at < ids.len() && ids[at] == id;
        assert(ids.drop_last()[at] == id);
        lemma_listed_when_present(path, ids.drop_last(), id);
    }
}

/// Nothing is left out of the lists: the path of every file that holds the
/// fact about an identifier stands in the list of that identifier.
pub proof fn lemma_files_are_listed(
    files: Seq<FileView>,
    fact: Fact,
    id: Seq<char>,
    path: Seq<char>,
)
    requires
        holds_fact(files, fact, id, path),
    ensures
        file_lists(files, fact).contains_key(id),
        file_lists(files, fact)[id].contains(path),
    decreases files.len(),
{
    let at = choose|i: int|
        0 <= i < files.len() && (#[trigger] files[i]).path == path && files[i].ids(fact).contains(
            id,
        );
    assert(files[at].ids(fact).contains(id));
    let shorter = files.drop_last();
    let last = files.last();
    let before = paths(shorter, fact, id);
    let own = listed(last.path, last.ids(fact), id);
    if at == files.len() - 1 {
        lemma_listed_when_present(last.path, last.ids(fact), id);
        lemma_listed_paths_are_the_path(last.path, last.ids(fact), id, 0);
        assert((before + own)[before.len() as int] == path);
    } else {
        assert(shorter[at] == files[at]);
        lemma_files_are_listed(shorter, fact, id, path);
        let k = choose|k: int| 0 <= k < before.len() && before[k] == path;
        assert((before + own)[k] == path);
    }
}

} // verus!
