//! The index: which paths bear which name.
use vstd::prelude::*;
use std::sync::Arc;
use crate::path::{file_label, folder_label, FilePath};
use crate::path_map::{contents, listing, PathMap};
use crate::text::{chars_of, lowercase, optional_text, to_lowercase};
use crate::trie::TrieNode;

pub mod search;

verus! {

/// The lists after `path` is filed under `key`.
pub open spec fn filed_under(
    lists: Map<Seq<char>, Seq<Arc<FilePath>>>,
    key: Seq<char>,
    path: Arc<FilePath>,
) -> Map<Seq<char>, Seq<Arc<FilePath>>> {
    lists.insert(key, listing(lists, key).push(path))
}

/// The paths with the given numbers.
pub open spec fn resolve(paths: Seq<Arc<FilePath>>, ids: Seq<usize>) -> Seq<Arc<FilePath>> {
    ids.map_values(|id: usize| paths[id as int])
}

/// Every number is one of the first `count`.
pub open spec fn all_below(ids: Seq<usize>, count: nat) -> bool {
    forall|i: int| 0 <= i < ids.len() ==> (#[trigger] ids[i]) < count
}

/// The lists of a map, with paths for their numbers.
pub open spec fn resolve_all(
    paths: Seq<Arc<FilePath>>,
    lists: Map<Seq<char>, Seq<usize>>,
) -> Map<Seq<char>, Seq<Arc<FilePath>>> {
    lists.map_values(|ids: Seq<usize>| resolve(paths, ids))
}

/// Every number in the map is one of the first `count`.
pub open spec fn map_below(lists: Map<Seq<char>, Seq<usize>>, count: nat) -> bool {
    forall|key: Seq<char>| #[trigger] lists.contains_key(key) ==> all_below(lists[key], count)
}

/// Every number in the tree is one of the first `count`.
pub open spec fn trie_below(root: TrieNode, count: nat) -> bool {
    forall|key: Seq<char>, is_folder: bool| all_below(#[trigger] root.filed(key, is_folder), count)
}

/// Numbers keep their paths when a path is added.
proof fn lemma_resolve_grown(paths: Seq<Arc<FilePath>>, path: Arc<FilePath>, ids: Seq<usize>)
    requires
        all_below(ids, paths.len()),
    ensures
        resolve(paths.push(path), ids) == resolve(paths, ids),
        all_below(ids, paths.push(path).len()),
{
    assert(resolve(paths.push(path), ids) =~= resolve(paths, ids));
}

/// A map keeps its paths when a path is added.
proof fn lemma_resolve_all_grown(
    paths: Seq<Arc<FilePath>>,
    path: Arc<FilePath>,
    lists: Map<Seq<char>, Seq<usize>>,
)
    requires
        map_below(lists, paths.len()),
    ensures
        resolve_all(paths.push(path), lists) == resolve_all(paths, lists),
        map_below(lists, paths.push(path).len()),
{
    assert forall|key: Seq<char>| lists.contains_key(key) implies resolve(
        paths.push(path),
        #[trigger] lists[key],
    ) == resolve(paths, lists[key]) by {
        lemma_resolve_grown(paths, path, lists[key]);
    }
    assert(resolve_all(paths.push(path), lists) =~= resolve_all(paths, lists));
}

/// Filing a number files its path.
proof fn lemma_resolve_all_filed(
    paths: Seq<Arc<FilePath>>,
    lists: Map<Seq<char>, Seq<usize>>,
    key: Seq<char>,
    id: usize,
)
    requires
        map_below(lists, paths.len()),
        id < paths.len(),
    ensures
        ({
            let longer = lists.insert(key, listing(lists, key).push(id));
            &&& resolve_all(paths, longer) == filed_under(
                resolve_all(paths, lists),
                key,
                paths[id as int],
            )
            &&& map_below(longer, paths.len())
        }),
{
    let longer = lists.insert(key, listing(lists, key).push(id));
    let resolved = resolve_all(paths, lists);
    assert(resolve(paths, listing(lists, key).push(id)) =~= listing(resolved, key).push(
        paths[id as int],
    ));
    assert(resolve_all(paths, longer) =~= filed_under(resolved, key, paths[id as int]));
    assert forall|k: Seq<char>| #[trigger] longer.contains_key(k) implies all_below(
        longer[k],
        paths.len(),
    ) by {
        assert(lists.contains_key(k) ==> all_below(lists[k], paths.len()));
    }
}

/// What the index holds: files and folders by name, files by extension, and what
/// the tree of names holds for each text, and to which texts it has a node.
#[verifier::ext_equal]
pub struct IndexModel {
    pub files: Map<Seq<char>, Seq<Arc<FilePath>>>,
    pub folders: Map<Seq<char>, Seq<Arc<FilePath>>>,
    pub file_types: Map<Seq<char>, Seq<Arc<FilePath>>>,
    pub trie_files: spec_fn(Seq<char>) -> Seq<Arc<FilePath>>,
    pub trie_folders: spec_fn(Seq<char>) -> Seq<Arc<FilePath>>,
    pub trie_nodes: spec_fn(Seq<char>) -> bool,
}

impl IndexModel {
    /// The index that holds nothing.
    pub open spec fn empty() -> IndexModel {
        IndexModel {
            files: Map::empty(),
            folders: Map::empty(),
            file_types: Map::empty(),
            trie_files: |key: Seq<char>| Seq::empty(),
            trie_folders: |key: Seq<char>| Seq::empty(),
            trie_nodes: |key: Seq<char>| key.len() == 0,
        }
    }

    /// The paths that the tree holds for `key`, files or folders.
    pub open spec fn in_trie(self, key: Seq<char>, is_folder: bool) -> Seq<Arc<FilePath>> {
        if is_folder {
            (self.trie_folders)(key)
        } else {
            (self.trie_files)(key)
        }
    }

    /// The index after a file is filed under `key` and, where it has one, under
    /// its extension.
    pub open spec fn with_file(
        self,
        path: Arc<FilePath>,
        key: Seq<char>,
        extension: Option<Seq<char>>,
    ) -> IndexModel {
        IndexModel {
            files: filed_under(self.files, key, path),
            file_types: match extension {
                Some(extension) => filed_under(self.file_types, extension, path),
                None => self.file_types,
            },
            trie_files: |text: Seq<char>|
                if text == key {
                    (self.trie_files)(text).push(path)
                } else {
                    (self.trie_files)(text)
                },
            trie_nodes: |text: Seq<char>| (self.trie_nodes)(text) || text.is_prefix_of(key),
            ..self
        }
    }

    /// The index after a folder is filed under `key`.
    pub open spec fn with_folder(self, path: Arc<FilePath>, key: Seq<char>) -> IndexModel {
        IndexModel {
            folders: filed_under(self.folders, key, path),
            trie_folders: |text: Seq<char>|
                if text == key {
                    (self.trie_folders)(text).push(path)
                } else {
                    (self.trie_folders)(text)
                },
            trie_nodes: |text: Seq<char>| (self.trie_nodes)(text) || text.is_prefix_of(key),
            ..self
        }
    }

    /// The index after its lists are emptied. The tree of names keeps what it has.
    pub open spec fn cleared(self) -> IndexModel {
        IndexModel {
            files: Map::empty(),
            folders: Map::empty(),
            file_types: Map::empty(),
            ..self
        }
    }
}

/// The extension in lower case, where there is one.
pub open spec fn lowercase_extension(path: FilePath) -> Option<Seq<char>> {
    match path.extension {
        Some(extension) => Some(lowercase(extension@)),
        None => None,
    }
}

/// Files and folders by name. Paths are numbered in the order in which they came;
/// the lists hold the numbers.
pub struct FileIndex {
    root: TrieNode,
    paths: Vec<Arc<FilePath>>,
    files: PathMap,
    folders: PathMap,
    file_type_map: PathMap,
}

impl View for FileIndex {
    type V = IndexModel;

    closed spec fn view(&self) -> IndexModel {
        IndexModel {
            files: resolve_all(self.paths@, contents(self.files)),
            folders: resolve_all(self.paths@, contents(self.folders)),
            file_types: resolve_all(self.paths@, contents(self.file_type_map)),
            trie_files: |key: Seq<char>| resolve(self.paths@, self.root.filed(key, false)),
            trie_folders: |key: Seq<char>| resolve(self.paths@, self.root.filed(key, true)),
            trie_nodes: |key: Seq<char>| self.root.has_node(key),
        }
    }
}

impl FileIndex {
    /// Every number in the lists and in the tree is the number of a path.
    pub closed spec fn wf(self) -> bool {
        &&& map_below(contents(self.files), self.paths@.len())
        &&& map_below(contents(self.folders), self.paths@.len())
        &&& map_below(contents(self.file_type_map), self.paths@.len())
        &&& trie_below(self.root, self.paths@.len())
    }

    /// An index that holds nothing.
    pub fn new() -> (index: Self)
        ensures
            index.wf(),
            index@ == IndexModel::empty(),
    {
        let index = FileIndex {
            root: TrieNode::new(),
            paths: Vec::new(),
            files: PathMap::new(),
            folders: PathMap::new(),
            file_type_map: PathMap::new(),
        };
        assert(index@ =~= IndexModel::empty()) by {
            assert forall|key: Seq<char>, kind: bool| #[trigger]
                resolve(index.paths@, index.root.filed(key, kind)) == Seq::<
                    Arc<FilePath>,
                >::empty() by {
                assert(resolve(index.paths@, index.root.filed(key, kind)) =~= Seq::empty());
            }
        }
        index
    }

    /// Empties the lists, as at the start of an indexing run. The tree of names
    /// keeps what it has.
    pub fn clear(&mut self)
        requires
            old(self).wf(),
        ensures
            final(self).wf(),
            final(self)@ == old(self)@.cleared(),
    {
        self.files.clear();
        self.folders.clear();
        self.file_type_map.clear();
        assert(self@ =~= old(self)@.cleared());
    }

    /// Numbers a path.
    fn number(&mut self, path: FilePath) -> (id: usize)
        requires
            old(self).wf(),
        ensures
            final(self).wf(),
            final(self)@ == old(self)@,
            final(self).paths@ == old(self).paths@.push(Arc::new(path)),
            id == old(self).paths@.len(),
            final(self).root == old(self).root,
            final(self).files == old(self).files,
            final(self).folders == old(self).folders,
            final(self).file_type_map == old(self).file_type_map,
    {
        let id: usize = self.paths.len();
        self.paths.push(Arc::new(path));
        proof {
            let paths = old(self).paths@;
            let shared = self.paths@[id as int];
            lemma_resolve_all_grown(paths, shared, contents(self.files));
            lemma_resolve_all_grown(paths, shared, contents(self.folders));
            lemma_resolve_all_grown(paths, shared, contents(self.file_type_map));
            assert forall|key: Seq<char>, kind: bool| #[trigger]
                resolve(self.paths@, self.root.filed(key, kind)) == resolve(
                    paths,
                    self.root.filed(key, kind),
                ) && all_below(self.root.filed(key, kind), self.paths@.len()) by {
                assert(all_below(self.root.filed(key, kind), paths.len()));
                lemma_resolve_grown(paths, shared, self.root.filed(key, kind));
            }
            assert(self@ =~= old(self)@);
            assert(trie_below(self.root, self.paths@.len())) by {
                assert forall|key: Seq<char>, kind: bool| all_below(
                    #[trigger] self.root.filed(key, kind),
                    self.paths@.len(),
                ) by {
                    assert(resolve(self.paths@, self.root.filed(key, kind)) == resolve(
                        paths,
                        self.root.filed(key, kind),
                    ));
                }
            }
        }
        id
    }

    /// Adds a file that is called `key`, and whose extension is called `extension`.
    pub fn add_file_under(&mut self, path: FilePath, key: String, extension: Option<String>)
        requires
            old(self).wf(),
        ensures
            final(self).wf(),
            final(self)@ == old(self)@.with_file(Arc::new(path), key@, optional_text(extension)),
    {
        let ghost shared = Arc::new(path);
        let ghost goal = self@.with_file(shared, key@, optional_text(extension));
        let id: usize = self.number(path);
        let ghost paths = self.paths@;
        proof {
            lemma_resolve_all_filed(paths, contents(self.files), key@, id);
        }
        let list = self.files.entry_or_default(key.clone());
        list.push(id);
        self.add_to_trie(key.as_str(), id, false);
        if let Some(extension) = extension {
            proof {
                lemma_resolve_all_filed(paths, contents(self.file_type_map), extension@, id);
            }
            let list = self.file_type_map.entry_or_default(extension);
            list.push(id);
        }
        proof {
            assert forall|text: Seq<char>| #[trigger]
                (self@.trie_files)(text) == (goal.trie_files)(text) by {
                if text == key@ {
                    assert((self@.trie_files)(text) =~= (old(self)@.trie_files)(text).push(shared));
                }
            }
            assert(self@.trie_files =~= goal.trie_files);
            assert(self@.trie_folders =~= goal.trie_folders);
            assert(self@.trie_nodes =~= goal.trie_nodes);
            assert(self@ =~= goal);
        }
    }

    /// Adds a file, by its name and its extension in lower case.
    pub fn add_file(&mut self, path: FilePath)
        requires
            old(self).wf(),
        ensures
            final(self).wf(),
            final(self)@ == old(self)@.with_file(
                Arc::new(path),
                lowercase(file_label(path)),
                lowercase_extension(path),
            ),
            lowercase(file_label(path)).len() == 0 <==> file_label(path).len() == 0,
    {
        let key = to_lowercase(path.label_as_file());
        let extension = match &path.extension {
            Some(extension) => Some(to_lowercase(extension.as_str())),
            None => None,
        };
        self.add_file_under(path, key, extension);
    }

    /// Adds a folder that is called `key`.
    pub fn add_folder_under(&mut self, path: FilePath, key: String)
        requires
            old(self).wf(),
        ensures
            final(self).wf(),
            final(self)@ == old(self)@.with_folder(Arc::new(path), key@),
    {
        let ghost shared = Arc::new(path);
        let id: usize = self.number(path);
        let ghost paths = self.paths@;
        proof {
            lemma_resolve_all_filed(paths, contents(self.folders), key@, id);
        }
        let list = self.folders.entry_or_default(key.clone());
        list.push(id);
        self.add_to_trie(key.as_str(), id, true);
        proof {
            let goal = old(self)@.with_folder(shared, key@);
            assert forall|text: Seq<char>| #[trigger]
                (self@.trie_folders)(text) == (goal.trie_folders)(text) by {
                if text == key@ {
                    assert((self@.trie_folders)(text) =~= (old(self)@.trie_folders)(text).push(
                        shared,
                    ));
                }
            }
            assert(self@.trie_files =~= goal.trie_files);
            assert(self@.trie_folders =~= goal.trie_folders);
            assert(self@.trie_nodes =~= goal.trie_nodes);
            assert(self@ =~= goal);
        }
    }

    /// Adds a folder, by its name in lower case.
    pub fn add_folder(&mut self, path: FilePath)
        requires
            old(self).wf(),
        ensures
            final(self).wf(),
            final(self)@ == old(self)@.with_folder(Arc::new(path), lowercase(folder_label(path))),
            lowercase(folder_label(path)).len() == 0 <==> folder_label(path).len() == 0,
    {
        let key = to_lowercase(path.label_as_folder());
        self.add_folder_under(path, key);
    }

    /// Adds what a walk came upon: a folder, or a file. What it cannot tell is left
    /// out. Says whether something was added.
    pub fn add_entry(&mut self, path: FilePath, is_folder: Option<bool>) -> (added: bool)
        requires
            old(self).wf(),
        ensures
            final(self).wf(),
            added == (is_folder is Some),
            final(self)@ == match is_folder {
                Some(true) => old(self)@.with_folder(
                    Arc::new(path),
                    lowercase(folder_label(path)),
                ),
                Some(false) => old(self)@.with_file(
                    Arc::new(path),
                    lowercase(file_label(path)),
                    lowercase_extension(path),
                ),
                None => old(self)@,
            },
    {
        match is_folder {
            Some(true) => {
                self.add_folder(path);
                true
            },
            Some(false) => {
                self.add_file(path);
                true
            },
            None => false,
        }
    }

    /// Files `id` in the tree of names.
    fn add_to_trie(&mut self, name: &str, id: usize, is_folder: bool)
        requires
            old(self).wf(),
            id < old(self).paths@.len(),
        ensures
            final(self).wf(),
            final(self).paths == old(self).paths,
            final(self).files == old(self).files,
            final(self).folders == old(self).folders,
            final(self).file_type_map == old(self).file_type_map,
            forall|key: Seq<char>, kind: bool| #[trigger]
                final(self).root.filed(key, kind) == (if key == name@ && kind == is_folder {
                    old(self).root.filed(key, kind).push(id)
                } else {
                    old(self).root.filed(key, kind)
                }),
            forall|key: Seq<char>| #[trigger]
                final(self).root.has_node(key) <==> old(self).root.has_node(key)
                    || key.is_prefix_of(name@),
    {
        let chars = chars_of(name);
        self.root.insert(&chars, 0, id, is_folder);
        assert(chars@.skip(0) =~= name@);
        assert forall|key: Seq<char>, kind: bool| all_below(
            #[trigger] self.root.filed(key, kind),
            self.paths@.len(),
        ) by {
            assert(all_below(old(self).root.filed(key, kind), self.paths@.len()));
        }
    }
}

} // verus!
