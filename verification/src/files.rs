//! The file registry: paths, languages and the nodes that each file owns.
use vstd::prelude::*;

use crate::ids::{FileId, NodeId};
use crate::indices::lemma_filter_take;
use crate::kinds::Language;
use crate::text::same_text;

verus! {

/// No further file can be numbered.
#[derive(Clone, Copy, Debug, PartialEq, Eq, Structural)]
pub struct RegistryFull;

/// One registered file.
pub struct FileRecord {
    pub path: String,
    pub language: Option<Language>,
    /// Hash of the contents, where it is known.
    pub content_hash: Option<[u8; 32]>,
}

/// Contents of a file record.
pub struct FileView {
    pub path: Seq<char>,
    pub language: Option<Language>,
    pub content_hash: Option<[u8; 32]>,
}

impl View for FileRecord {
    type V = FileView;

    open spec fn view(&self) -> FileView {
        FileView {
            path: self.path@,
            language: self.language,
            content_hash: self.content_hash,
        }
    }
}

/// A node recorded in the bucket of a file.
#[derive(Clone, Copy, Debug, PartialEq, Eq, Structural)]
pub struct BucketEntry {
    pub file: FileId,
    pub node: NodeId,
}

/// Registered files and the nodes recorded for them.
pub struct FileRegistry {
    pub files: Vec<FileRecord>,
    pub buckets: Vec<BucketEntry>,
}

/// Contents of a file registry.
pub struct RegistryView {
    pub files: Seq<FileView>,
    /// Recorded nodes, in recording order.
    pub buckets: Seq<BucketEntry>,
}

impl View for FileRegistry {
    type V = RegistryView;

    open spec fn view(&self) -> RegistryView {
        RegistryView {
            files: Seq::new(self.files@.len(), |i: int| self.files@[i]@),
            buckets: self.buckets@,
        }
    }
}

/// The number of the first file with path `path` at or after `i`.
pub open spec fn file_from(files: Seq<FileView>, path: Seq<char>, i: int) -> Option<int>
    decreases files.len() - i,
{
    if i < 0 || i >= files.len() {
        None
    } else if files[i].path == path {
        Some(i)
    } else {
        file_from(files, path, i + 1)
    }
}

/// The bucket entries among the first `n` whose node is not in `dead`.
pub open spec fn buckets_without(buckets: Seq<BucketEntry>, dead: Seq<NodeId>, n: int) -> Seq<
    BucketEntry,
>
    decreases n,
{
    if n <= 0 {
        Seq::empty()
    } else {
        let kept = buckets_without(buckets, dead, n - 1);
        if dead.contains(buckets[n - 1].node) {
            kept
        } else {
            kept.push(buckets[n - 1])
        }
    }
}

/// The nodes recorded for `file` among the first `n` entries.
pub open spec fn bucket_of(buckets: Seq<BucketEntry>, file: FileId, n: int) -> Seq<NodeId>
    decreases n,
{
    if n <= 0 {
        Seq::empty()
    } else {
        let before = bucket_of(buckets, file, n - 1);
        if buckets[n - 1].file == file {
            before.push(buckets[n - 1].node)
        } else {
            before
        }
    }
}

/// The files among the first `n` whose language is `language`, in registration order.
pub open spec fn files_of_language(files: Seq<FileView>, language: Language, n: int) -> Seq<FileId>
    decreases n,
{
    if n <= 0 {
        Seq::empty()
    } else {
        let before = files_of_language(files, language, n - 1);
        if files[n - 1].language == Some(language) {
            before.push(FileId((n - 1) as u32))
        } else {
            before
        }
    }
}

impl RegistryView {
    /// The path of `file`.
    pub open spec fn path(self, file: FileId) -> Option<Seq<char>> {
        if file.0 < self.files.len() {
            Some(self.files[file.0 as int].path)
        } else {
            None
        }
    }

    /// The hash of the contents of `file`; all zero where it is not known.
    pub open spec fn content_hash(self, file: FileId) -> Seq<u8> {
        if file.0 < self.files.len() && self.files[file.0 as int].content_hash is Some {
            (self.files[file.0 as int].content_hash->0)@
        } else {
            Seq::new(32, |i: int| 0u8)
        }
    }

    /// The language of `file`.
    pub open spec fn language(self, file: FileId) -> Option<Language> {
        if file.0 < self.files.len() {
            self.files[file.0 as int].language
        } else {
            None
        }
    }

    /// The registry with `node` recorded for `file`.
    pub open spec fn recorded(self, file: FileId, node: NodeId) -> RegistryView {
        RegistryView { buckets: self.buckets.push(BucketEntry { file, node }), ..self }
    }
}

fn zero_hash() -> (r: [u8; 32])
    ensures
        r@ == Seq::new(32, |i: int| 0u8),
{
    let r: [u8; 32] = [0u8; 32];
    proof {
        assert(r@ =~= Seq::new(32, |i: int| 0u8));
    }
    r
}

/// Whether `node` occurs in `nodes`.
pub fn has_node(nodes: &Vec<NodeId>, node: NodeId) -> (r: bool)
    ensures
        r == nodes@.contains(node),
{
    for i in 0..nodes.len()
        invariant
            forall|j: int| 0 <= j < i ==> nodes@[j] != node,
    {
        if nodes[i] == node {
            assert(nodes@[i as int] == node);
            return true;
        }
    }
    false
}

impl FileRegistry {
    /// A registry without files.
    pub fn new() -> (r: FileRegistry)
        ensures
            r@.files == Seq::<FileView>::empty(),
            r@.buckets == Seq::<BucketEntry>::empty(),
    {
        let r = FileRegistry { files: Vec::new(), buckets: Vec::new() };
        proof {
            assert(r@.files =~= Seq::<FileView>::empty());
        }
        r
    }

    /// Registers `path` with a language. A path that is registered already keeps
    /// its number, and takes the language where one is given.
    pub fn register_with_language(&mut self, path: &str, language: Option<Language>) -> (r: Result<
        FileId,
        RegistryFull,
    >)
        ensures
            final(self)@.buckets == old(self)@.buckets,
            match file_from(old(self)@.files, path@, 0) {
                Some(i) => i < old(self)@.files.len() && final(self)@.files == (match language {
                    Some(_) => old(self)@.files.update(
                        i,
                        FileView { language, ..old(self)@.files[i] },
                    ),
                    None => old(self)@.files,
                }) && (if i < u32::MAX {
                    r == Ok::<FileId, RegistryFull>(FileId(i as u32))
                } else {
                    r is Err
                }),
                None => if old(self)@.files.len() < u32::MAX {
                    r == Ok::<FileId, RegistryFull>(FileId(old(self)@.files.len() as u32))
                        && final(self)@.files == old(self)@.files.push(
                        FileView { path: path@, language, content_hash: None },
                    )
                } else {
                    r is Err && final(self)@.files == old(self)@.files
                },
            },
    {
        let ghost before = self@.files;
        let n: usize = self.files.len();
        let mut i: usize = 0;
        while i < n
            invariant
                i <= n,
                n == before.len(),
                n == self.files@.len(),
                self@.files == before,
                self@.buckets == old(self)@.buckets,
                before == old(self)@.files,
                file_from(before, path@, 0) == file_from(before, path@, i as int),
            decreases n - i,
        {
            assert(before[i as int] == self.files@[i as int]@);
            if same_text(self.files[i].path.as_str(), path) {
                match language {
                    Some(l) => {
                        let p: String = self.files[i].path.clone();
                        let content_hash: Option<[u8; 32]> = self.files[i].content_hash;
                        self.files.set(i, FileRecord { path: p, language, content_hash });
                        proof {
                            assert(self@.files =~= before.update(
                                i as int,
                                FileView { language, ..before[i as int] },
                            ));
                        }
                    },
                    None => {},
                }
                if i < u32::MAX as usize {
                    return Ok(FileId(i as u32));
                } else {
                    return Err(RegistryFull);
                }
            }
            i = i + 1;
        }
        if n >= u32::MAX as usize {
            return Err(RegistryFull);
        }
        self.files.push(FileRecord { path: path.to_owned(), language, content_hash: None });
        proof {
            assert(self@.files =~= before.push(FileView { path: path@, language, content_hash: None }));
        }
        Ok(FileId(n as u32))
    }

    /// Registers `path` without a language.
    pub fn register(&mut self, path: &str) -> (r: Result<FileId, RegistryFull>)
        ensures
            final(self)@.buckets == old(self)@.buckets,
            match file_from(old(self)@.files, path@, 0) {
                Some(i) => final(self)@.files == old(self)@.files && (if i < u32::MAX {
                    r == Ok::<FileId, RegistryFull>(FileId(i as u32))
                } else {
                    r is Err
                }),
                None => if old(self)@.files.len() < u32::MAX {
                    r == Ok::<FileId, RegistryFull>(FileId(old(self)@.files.len() as u32))
                        && final(self)@.files == old(self)@.files.push(
                        FileView { path: path@, language: None, content_hash: None },
                    )
                } else {
                    r is Err && final(self)@.files == old(self)@.files
                },
            },
    {
        self.register_with_language(path, None)
    }

    /// Notes down the hash of the contents of `file`.
    pub fn set_content_hash(&mut self, file: FileId, hash: [u8; 32])
        ensures
            final(self)@.buckets == old(self)@.buckets,
            final(self)@.files == (if file.0 < old(self)@.files.len() {
                old(self)@.files.update(
                    file.0 as int,
                    FileView { content_hash: Some(hash), ..old(self)@.files[file.0 as int] },
                )
            } else {
                old(self)@.files
            }),
    {
        let i: usize = file.0 as usize;
        if i < self.files.len() {
            let ghost before = self@.files;
            let path: String = self.files[i].path.clone();
            let language: Option<Language> = self.files[i].language;
            assert(before[i as int] == self.files@[i as int]@);
            self.files.set(i, FileRecord { path, language, content_hash: Some(hash) });
            proof {
                assert(self@.files =~= before.update(
                    i as int,
                    FileView { content_hash: Some(hash), ..before[i as int] },
                ));
            }
        }
    }

    /// The hash of the contents of `file`; all zero where it is not known.
    pub fn content_hash(&self, file: FileId) -> (r: [u8; 32])
        ensures
            r@ == self@.content_hash(file),
    {
        let i: usize = file.0 as usize;
        if i < self.files.len() {
            assert(self@.files[i as int] == self.files@[i as int]@);
            match self.files[i].content_hash {
                Some(h) => h,
                None => zero_hash(),
            }
        } else {
            zero_hash()
        }
    }

    /// The path of `file`.
    pub fn resolve(&self, file: FileId) -> (r: Option<String>)
        ensures
            crate::strings::text_of(r) == self@.path(file),
    {
        let i: usize = file.0 as usize;
        if i < self.files.len() {
            assert(self@.files[i as int] == self.files@[i as int]@);
            Some(self.files[i].path.clone())
        } else {
            None
        }
    }

    /// The language of `file`.
    pub fn language_for_file(&self, file: FileId) -> (r: Option<Language>)
        ensures
            r == self@.language(file),
    {
        let i: usize = file.0 as usize;
        if i < self.files.len() {
            assert(self@.files[i as int] == self.files@[i as int]@);
            self.files[i].language
        } else {
            None
        }
    }

    /// The files of `language`, in registration order.
    pub fn files_by_language(&self, language: Language) -> (r: Vec<FileId>)
        ensures
            r@ == files_of_language(self@.files, language, self@.files.len() as int),
    {
        let mut out: Vec<FileId> = Vec::new();
        for i in 0..self.files.len()
            invariant
                out@ == files_of_language(self@.files, language, i as int),
        {
            assert(self@.files[i as int] == self.files@[i as int]@);
            let hit: bool = match self.files[i].language {
                Some(l) => l == language,
                None => false,
            };
            if hit {
                out.push(FileId(i as u32));
            }
        }
        out
    }

    /// Records `node` in the bucket of `file`.
    pub fn record_node(&mut self, file: FileId, node: NodeId)
        ensures
            final(self)@ == old(self)@.recorded(file, node),
    {
        self.buckets.push(BucketEntry { file, node });
        proof {
            assert(self@.files =~= old(self)@.files);
        }
    }

    /// The nodes recorded for `file`, in recording order.
    pub fn nodes_for_file(&self, file: FileId) -> (r: Vec<NodeId>)
        ensures
            r@ == bucket_of(self@.buckets, file, self@.buckets.len() as int),
    {
        let mut out: Vec<NodeId> = Vec::new();
        for i in 0..self.buckets.len()
            invariant
                out@ == bucket_of(self@.buckets, file, i as int),
        {
            if self.buckets[i].file == file {
                out.push(self.buckets[i].node);
            }
        }
        out
    }

    /// Drops the nodes in `dead` from every bucket.
    pub fn drop_nodes_from_buckets(&mut self, dead: &Vec<NodeId>)
        ensures
            final(self)@.files == old(self)@.files,
            final(self)@.buckets == buckets_without(
                old(self)@.buckets,
                dead@,
                old(self)@.buckets.len() as int,
            ),
    {
        let mut kept: Vec<BucketEntry> = Vec::new();
        for i in 0..self.buckets.len()
            invariant
                kept@ == buckets_without(self.buckets@, dead@, i as int),
        {
            if !has_node(dead, self.buckets[i].node) {
                kept.push(self.buckets[i]);
            }
        }
        self.buckets = kept;
        proof {
            assert(self@.files =~= old(self)@.files);
        }
    }
}

proof fn lemma_buckets(buckets: Seq<BucketEntry>, file: FileId, dead: Seq<NodeId>, n: int)
    requires
        0 <= n <= buckets.len(),
    ensures
        bucket_of(buckets, file, n) == buckets.take(n).filter(
            |b: BucketEntry| b.file == file,
        ).map_values(|b: BucketEntry| b.node),
        buckets_without(buckets, dead, n) == buckets.take(n).filter(
            |b: BucketEntry| !dead.contains(b.node),
        ),
    decreases n,
{
    let a = |b: BucketEntry| b.file == file;
    let c = |b: BucketEntry| !dead.contains(b.node);
    let node = |b: BucketEntry| b.node;
    if n > 0 {
        lemma_buckets(buckets, file, dead, n - 1);
        lemma_filter_take(buckets, a, n);
        lemma_filter_take(buckets, c, n);
        let before = buckets.take(n - 1).filter(a);
        assert(before.push(buckets[n - 1]).map_values(node) =~= before.map_values(node).push(
            buckets[n - 1].node,
        ));
    } else {
        reveal(Seq::filter);
        assert(buckets.take(0) =~= Seq::empty());
        assert(Seq::<BucketEntry>::empty().filter(a).map_values(node) =~= Seq::empty());
    }
}

proof fn lemma_language(files: Seq<FileView>, language: Language, n: int)
    requires
        0 <= n <= files.len() <= 0x1_0000_0000,
    ensures
        forall|f: FileId|
            #[trigger] files_of_language(files, language, n).contains(f) <==> f.0 < n
                && files[f.0 as int].language == Some(language),
        forall|i: int, j: int|
            0 <= i < j < files_of_language(files, language, n).len() ==> (
            #[trigger] files_of_language(files, language, n)[i]).0 < (
            #[trigger] files_of_language(files, language, n)[j]).0,
    decreases n,
{
    if n > 0 {
        lemma_language(files, language, n - 1);
        let before = files_of_language(files, language, n - 1);
        let all = files_of_language(files, language, n);
        assert forall|f: FileId| #[trigger] all.contains(f) <==> f.0 < n
            && files[f.0 as int].language == Some(language) by {
            if before.contains(f) {
                assert(all[before.index_of(f)] == f);
            }
            if all.contains(f) {
                let i = all.index_of(f);
                if i < before.len() {
                    assert(before[i] == f);
                }
            }
            if f.0 == n - 1 && files[n - 1].language == Some(language) {
                assert(all[before.len() as int] == f);
            }
        }
        assert forall|i: int, j: int| 0 <= i < j < all.len() implies (#[trigger] all[i]).0 < (
        #[trigger] all[j]).0 by {
            assert(all[i] == before[i]);
            assert(before.contains(before[i]));
            if j < before.len() {
                assert(all[j] == before[j]);
            }
        }
    }
}

/// The nodes of a file are those that were recorded for it, in their order; dropping nodes
/// leaves the records of all others; and the files of a language are those registered with
/// it, each once and in order.
pub proof fn law_files_have_what_was_recorded(
    r: RegistryView,
    file: FileId,
    dead: Seq<NodeId>,
    language: Language,
)
    requires
        r.files.len() <= 0x1_0000_0000,
    ensures
        bucket_of(r.buckets, file, r.buckets.len() as int) == r.buckets.filter(
            |b: BucketEntry| b.file == file,
        ).map_values(|b: BucketEntry| b.node),
        buckets_without(r.buckets, dead, r.buckets.len() as int) == r.buckets.filter(
            |b: BucketEntry| !dead.contains(b.node),
        ),
        ({
            let found = files_of_language(r.files, language, r.files.len() as int);
            &&& forall|f: FileId|
                #[trigger] found.contains(f) <==> f.0 < r.files.len()
                    && r.files[f.0 as int].language == Some(language)
            &&& forall|i: int, j: int|
                0 <= i < j < found.len() ==> (#[trigger] found[i]).0 < (#[trigger] found[j]).0
        }),
{
    let n = r.buckets.len() as int;
    assert(r.buckets.take(n) =~= r.buckets);
    lemma_buckets(r.buckets, file, dead, n);
    lemma_language(r.files, language, r.files.len() as int);
}

} // verus!
