//! Lists of path numbers, by name.
use vstd::prelude::*;

verus! {

/// A `hashbrown::HashMap` from names to the numbers of the paths that bear them.
#[verifier::external_body]
pub struct PathMap {
    inner: hashbrown::HashMap<String, Vec<usize>>,
}

/// What a map holds.
pub uninterp spec fn contents(map: PathMap) -> Map<Seq<char>, Seq<usize>>;

/// The list that `lists` holds for `key`, or no list.
pub open spec fn listing<T>(lists: Map<Seq<char>, Seq<T>>, key: Seq<char>) -> Seq<T> {
    if lists.contains_key(key) {
        lists[key]
    } else {
        Seq::empty()
    }
}

/// No list for any key.
pub open spec fn no_lists() -> Map<Seq<char>, Seq<usize>> {
    Map::empty()
}

/// `order` names every key once.
pub open spec fn is_walk<T>(order: Seq<Seq<char>>, lists: Map<Seq<char>, Seq<T>>) -> bool {
    order.no_duplicates() && order.to_set() == lists.dom()
}

/// The names of the entries that a walk hands out.
pub open spec fn entry_names(entries: Seq<(&String, &Vec<usize>)>) -> Seq<Seq<char>> {
    entries.map_values(|entry: (&String, &Vec<usize>)| entry.0@)
}

impl PathMap {
    /// `hashbrown::HashMap::new`: the new map holds nothing.
    #[verifier::external_body]
    pub(crate) fn new() -> (map: Self)
        ensures
            contents(map) == no_lists(),
    {
        PathMap { inner: hashbrown::HashMap::new() }
    }

    /// `hashbrown::HashMap::clear`: the map holds nothing afterwards.
    #[verifier::external_body]
    pub(crate) fn clear(&mut self)
        ensures
            contents(*final(self)) == no_lists(),
    {
        self.inner.clear()
    }

    /// `hashbrown::HashMap::entry` with `Entry::or_default`: the list for `key`, an
    /// empty one where there was none. What the caller leaves in it is what the
    /// map holds for `key` from then on; the other lists stay as they were.
    #[verifier::external_body]
    pub(crate) fn entry_or_default(&mut self, key: String) -> (list: &mut Vec<usize>)
        ensures
            list@ == listing(contents(*old(self)), key@),
            contents(*final(self)) == contents(*old(self)).insert(key@, final(list)@),
    {
        self.inner.entry(key).or_default()
    }

    /// `hashbrown::HashMap::get`: the list for `key`, if there is one.
    #[verifier::external_body]
    pub(crate) fn get(&self, key: &str) -> (list: Option<&Vec<usize>>)
        ensures
            match list {
                Some(list) => contents(*self).contains_key(key@) && list@ == contents(*self)[key@],
                None => !contents(*self).contains_key(key@),
            },
    {
        self.inner.get(key)
    }

    /// `hashbrown::HashMap::iter`, collected: every entry once, in an order that
    /// is not specified.
    #[verifier::external_body]
    pub(crate) fn walk(&self) -> (entries: Vec<(&String, &Vec<usize>)>)
        ensures
            is_walk(entry_names(entries@), contents(*self)),
            forall|i: int|
                0 <= i < entries@.len() ==> (#[trigger] entries@[i]).1@ == contents(
                    *self,
                )[entries@[i].0@],
    {
        self.inner.iter().collect()
    }
}

} // verus!
