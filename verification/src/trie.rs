//! A tree of names, one character per level.
use vstd::prelude::*;
use std::collections::HashMap;

verus! {

/// A node of the tree: what was filed under the text that leads to it, and the
/// nodes one character further on, by the number of that character.
pub struct TrieNode {
    pub children: HashMap<u32, TrieNode>,
    pub file_paths: Vec<usize>,
    pub folder_paths: Vec<usize>,
}

impl TrieNode {
    /// What is filed here, files or folders.
    pub open spec fn own(self, is_folder: bool) -> Seq<usize> {
        if is_folder {
            self.folder_paths@
        } else {
            self.file_paths@
        }
    }

    /// What is filed under the text `key`, counted from this node.
    pub open spec fn filed(self, key: Seq<char>, is_folder: bool) -> Seq<usize>
        decreases key.len(),
    {
        if key.len() == 0 {
            self.own(is_folder)
        } else if self.children@.contains_key(key[0] as u32) {
            self.children@[key[0] as u32].filed(key.drop_first(), is_folder)
        } else {
            Seq::empty()
        }
    }

    /// There is a node at the end of the text `key`, counted from this node.
    pub open spec fn has_node(self, key: Seq<char>) -> bool
        decreases key.len(),
    {
        key.len() == 0 || {
            &&& self.children@.contains_key(key[0] as u32)
            &&& self.children@[key[0] as u32].has_node(key.drop_first())
        }
    }

    /// A node that nothing is filed under, and no other node behind it.
    pub fn new() -> (node: Self)
        ensures
            forall|key: Seq<char>| #[trigger] node.has_node(key) <==> key.len() == 0,
            forall|key: Seq<char>, is_folder: bool| #[trigger]
                node.filed(key, is_folder) == Seq::<usize>::empty(),
    {
        let node = TrieNode {
            children: HashMap::new(),
            file_paths: Vec::new(),
            folder_paths: Vec::new(),
        };
        assert forall|key: Seq<char>, is_folder: bool| #[trigger]
            node.filed(key, is_folder) == Seq::<usize>::empty() by {
            assert(node.own(is_folder) =~= Seq::<usize>::empty());
        }
        node
    }

    /// Files `id` under the text that `name` holds from position `at` on. Every node
    /// stays, and the nodes that are missing on the way are made.
    pub fn insert(&mut self, name: &Vec<char>, at: usize, id: usize, is_folder: bool)
        requires
            at <= name@.len(),
        ensures
            forall|key: Seq<char>, kind: bool| #[trigger]
                final(self).filed(key, kind) == (if key == name@.skip(at as int) && kind
                    == is_folder {
                    old(self).filed(key, kind).push(id)
                } else {
                    old(self).filed(key, kind)
                }),
            forall|key: Seq<char>| #[trigger]
                final(self).has_node(key) <==> old(self).has_node(key) || key.is_prefix_of(
                    name@.skip(at as int),
                ),
        decreases name@.len() - at,
    {
        let ghost before = *self;
        let ghost tail = name@.skip(at as int);
        if at == name.len() {
            if is_folder {
                self.folder_paths.push(id);
            } else {
                self.file_paths.push(id);
            }
            assert(tail =~= Seq::<char>::empty());
            assert forall|key: Seq<char>, kind: bool| #[trigger]
                self.filed(key, kind) == (if key == tail && kind == is_folder {
                    before.filed(key, kind).push(id)
                } else {
                    before.filed(key, kind)
                }) by {
                if key.len() == 0 {
                    assert(key =~= tail);
                }
            }
            assert forall|key: Seq<char>| #[trigger]
                self.has_node(key) <==> before.has_node(key) || key.is_prefix_of(tail) by {
                if key.len() > 0 {
                    assert(!key.is_prefix_of(tail));
                }
            }
            return;
        }
        let c: u32 = name[at] as u32;
        let child = self.children.entry(c).or_insert(TrieNode::new());
        let ghost found = *child;
        child.insert(name, at + 1, id, is_folder);
        assert(self.children@.contains_key(c));
        let ghost grown = self.children@[c];
        assert(self.children@ == before.children@.insert(c, grown));
        assert(before.children@.contains_key(c) ==> found == before.children@[c]);
        assert forall|key: Seq<char>, kind: bool| #[trigger]
            self.filed(key, kind) == (if key == tail && kind == is_folder {
                before.filed(key, kind).push(id)
            } else {
                before.filed(key, kind)
            }) by {
            assert(name@.skip(at + 1) =~= tail.drop_first());
            if key.len() > 0 {
                let rest = key.drop_first();
                assert(key =~= seq![key[0]] + rest);
                assert(tail =~= seq![tail[0]] + tail.drop_first());
                if key[0] as u32 == c {
                    vstd::utf8::char_u32_cast(key[0], c);
                    vstd::utf8::char_u32_cast(tail[0], c);
                    assert(grown.filed(rest, kind) == self.filed(key, kind));
                    assert(found.filed(rest, kind) == before.filed(key, kind));
                } else {
                    assert(self.filed(key, kind) == before.filed(key, kind));
                }
            } else {
                assert(self.own(kind) == before.own(kind));
            }
        }
        assert forall|key: Seq<char>| #[trigger]
            self.has_node(key) <==> before.has_node(key) || key.is_prefix_of(tail) by {
            assert(name@.skip(at + 1) =~= tail.drop_first());
            if key.len() > 0 {
                let rest = key.drop_first();
                lemma_longer_prefix(key, tail);
                if key[0] as u32 == c {
                    vstd::utf8::char_u32_cast(key[0], c);
                    vstd::utf8::char_u32_cast(tail[0], c);
                    assert(grown.has_node(rest) == self.has_node(key));
                    if before.children@.contains_key(c) {
                        assert(found.has_node(rest) == before.has_node(key));
                    } else {
                        assert(found.has_node(rest) ==> rest.is_prefix_of(tail.drop_first()));
                    }
                } else {
                    assert(self.has_node(key) == before.has_node(key));
                }
            }
        }
    }
}

/// A text begins a text that has a first character where the first characters are
/// the same and the rest of the one begins the rest of the other.
proof fn lemma_longer_prefix(key: Seq<char>, text: Seq<char>)
    requires
        key.len() > 0,
        text.len() > 0,
    ensures
        key.is_prefix_of(text) <==> key[0] == text[0] && key.drop_first().is_prefix_of(
            text.drop_first(),
        ),
{
    let rest = key.drop_first();
    let behind = text.drop_first();
    if key.is_prefix_of(text) {
        assert(key[0] == text.subrange(0, key.len() as int)[0]);
        assert forall|i: int| 0 <= i < rest.len() implies rest[i] == behind.subrange(
            0,
            rest.len() as int,
        )[i] by {
            assert(key[i + 1] == text.subrange(0, key.len() as int)[i + 1]);
        }
    }
    if key[0] == text[0] && rest.is_prefix_of(behind) {
        assert forall|i: int| 0 <= i < key.len() implies key[i] == text.subrange(
            0,
            key.len() as int,
        )[i] by {
            if i > 0 {
                assert(rest[i - 1] == behind.subrange(0, rest.len() as int)[i - 1]);
            }
        }
    }
}

/// Where there is no node, nothing is filed.
pub proof fn lemma_no_node_holds_nothing(node: TrieNode, key: Seq<char>, is_folder: bool)
    requires
        !node.has_node(key),
    ensures
        node.filed(key, is_folder) == Seq::<usize>::empty(),
    decreases key.len(),
{
    if key.len() > 0 && node.children@.contains_key(key[0] as u32) {
        lemma_no_node_holds_nothing(
            node.children@[key[0] as u32],
            key.drop_first(),
            is_folder,
        );
    }
}

} // verus!
