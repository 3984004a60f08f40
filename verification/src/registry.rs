//! In-memory watchlist registry.
//!
//! Each URI maps to one tree registered at a timestamp; its root is
//! available for any query time at or after that timestamp.

use crate::merkle::SortedMerkleTree;
use crate::tree_model::merkle_root;
use crate::address::Address;
use vstd::hash_map::StringHashMap;
use vstd::prelude::*;

verus! {

/// What the registry holds for a URI: the tree's leaves and the registration time.
pub struct WatchlistModel {
    pub leaves: Seq<Address>,
    pub registered_at: u64,
}

/// The root of `uri` as of time `timestamp`: present when the URI is known and
/// was registered at or before that time.
pub open spec fn historical_root(
    m: Map<Seq<char>, WatchlistModel>,
    uri: Seq<char>,
    timestamp: u64,
) -> Option<Seq<u8>> {
    if m.contains_key(uri) && timestamp >= m[uri].registered_at {
        Some(merkle_root(m[uri].leaves))
    } else {
        None
    }
}

/// The current root of `uri`.
pub open spec fn current_root(m: Map<Seq<char>, WatchlistModel>, uri: Seq<char>) -> Option<Seq<u8>> {
    if m.contains_key(uri) {
        Some(merkle_root(m[uri].leaves))
    } else {
        None
    }
}

struct WatchlistEntry {
    tree: SortedMerkleTree,
    /// Registration time; the root is available for queries at or after it.
    registered_at: u64,
    root: [u8; 32],
}

impl WatchlistEntry {
    #[verifier::type_invariant]
    spec fn root_matches(self) -> bool {
        self.root@ == merkle_root(self.tree@)
    }

    spec fn model(self) -> WatchlistModel {
        WatchlistModel { leaves: self.tree@, registered_at: self.registered_at }
    }
}

/// An in-memory registry of watchlists keyed by URI.
pub struct MockRegistry {
    watchlists: StringHashMap<WatchlistEntry>,
}

impl View for MockRegistry {
    type V = Map<Seq<char>, WatchlistModel>;

    closed spec fn view(&self) -> Map<Seq<char>, WatchlistModel> {
        Map::new(
            |k: Seq<char>| self.watchlists@.contains_key(k),
            |k: Seq<char>| self.watchlists@[k].model(),
        )
    }
}

impl MockRegistry {
    #[verifier::type_invariant]
    spec fn finite_domain(self) -> bool {
        self.watchlists@.dom().finite()
    }

    /// An empty registry.
    pub fn new() -> (r: Self)
        ensures
            r@ == Map::<Seq<char>, WatchlistModel>::empty(),
            r@.dom().finite(),
    {
        let r = MockRegistry { watchlists: StringHashMap::new() };
        assert(r@ =~= Map::<Seq<char>, WatchlistModel>::empty());
        r
    }

    /// Register `tree` under `uri`, effective from `timestamp`; an earlier
    /// registration of `uri` is replaced.
    pub fn register_watchlist(&mut self, uri: String, tree: SortedMerkleTree, timestamp: u64)
        ensures
            final(self)@ == old(self)@.insert(
                uri@,
                WatchlistModel { leaves: tree@, registered_at: timestamp },
            ),
            final(self)@.dom().finite(),
            final(self)@.len() == old(self)@.len() + if old(self)@.contains_key(uri@) {
                0int
            } else {
                1int
            },
    {
        proof {
            use_type_invariant(&*self);
            assert(old(self)@.dom() =~= old(self).watchlists@.dom());
        }
        let root = tree.root();
        let ghost uri_view = uri@;
        let ghost leaves = tree@;
        let mut watchlists = StringHashMap::new();
        std::mem::swap(&mut watchlists, &mut self.watchlists);
        watchlists.insert(uri, WatchlistEntry { tree, registered_at: timestamp, root });
        self.watchlists = watchlists;
        assert(self@ =~= old(self)@.insert(
            uri_view,
            WatchlistModel { leaves, registered_at: timestamp },
        ));
        assert(self@.dom() =~= self.watchlists@.dom());
    }

    /// The tree backing `uri`.
    pub fn get_tree(&self, uri: &str) -> (r: Option<&SortedMerkleTree>)
        ensures
            match r {
                Some(t) => self@.contains_key(uri@) && t@ == self@[uri@].leaves,
                None => !self@.contains_key(uri@),
            },
    {
        match self.watchlists.get(uri) {
            Some(entry) => Some(&entry.tree),
            None => None,
        }
    }

    /// The root of `uri` as of `timestamp`; `None` if the URI is unknown or was
    /// registered after the queried time.
    pub fn get_historical_root(&self, uri: &str, timestamp: u64) -> (r: Option<[u8; 32]>)
        ensures
            match r {
                Some(h) => historical_root(self@, uri@, timestamp) == Some(h@),
                None => historical_root(self@, uri@, timestamp) is None,
            },
    {
        match self.watchlists.get(uri) {
            Some(entry) => {
                proof {
                    use_type_invariant(entry);
                }
                if timestamp >= entry.registered_at {
                    Some(entry.root)
                } else {
                    None
                }
            },
            None => None,
        }
    }

    /// The current root of `uri`.
    pub fn get_root(&self, uri: &str) -> (r: Option<[u8; 32]>)
        ensures
            match r {
                Some(h) => current_root(self@, uri@) == Some(h@),
                None => current_root(self@, uri@) is None,
            },
    {
        match self.watchlists.get(uri) {
            Some(entry) => {
                proof {
                    use_type_invariant(entry);
                }
                Some(entry.root)
            },
            None => None,
        }
    }

    /// Whether `uri` is registered.
    pub fn contains(&self, uri: &str) -> (r: bool)
        ensures
            r == self@.contains_key(uri@),
    {
        self.watchlists.contains_key(uri)
    }

    /// The number of registered URIs.
    pub fn len(&self) -> (r: usize)
        ensures
            r == self@.len(),
            self@.dom().finite(),
    {
        proof {
            use_type_invariant(self);
        }
        assert(self@.dom() =~= self.watchlists@.dom());
        self.watchlists.len()
    }

    /// Whether no URI is registered.
    pub fn is_empty(&self) -> (r: bool)
        ensures
            r == (self@.len() == 0),
    {
        self.len() == 0
    }
}

impl Default for MockRegistry {
    fn default() -> (r: Self)
        ensures
            r@ == Map::<Seq<char>, WatchlistModel>::empty(),
    {
        Self::new()
    }
}

/// Read after write: after registering a tree under `uri` at `timestamp`, the
/// root of `uri` as of any time at or after `timestamp` is the tree's root,
/// there is none before, every other URI answers as before, and the registry
/// grows by one entry exactly when `uri` was not registered yet.
pub proof fn lemma_register_then_historical_root(
    m: Map<Seq<char>, WatchlistModel>,
    uri: Seq<char>,
    leaves: Seq<Address>,
    timestamp: u64,
    other: Seq<char>,
    query_time: u64,
)
    requires
        m.dom().finite(),
    ensures
        ({
            let m2 = m.insert(uri, WatchlistModel { leaves, registered_at: timestamp });
            &&& historical_root(m2, uri, query_time) == (if query_time >= timestamp {
                Some(merkle_root(leaves))
            } else {
                None
            })
            &&& current_root(m2, uri) == Some(merkle_root(leaves))
            &&& other != uri ==> historical_root(m2, other, query_time) == historical_root(
                m,
                other,
                query_time,
            )
            &&& other != uri ==> current_root(m2, other) == current_root(m, other)
            &&& m2.contains_key(uri)
            &&& m2.len() == m.len() + if m.contains_key(uri) {
                0int
            } else {
                1int
            }
            &&& m2.dom().finite()
        }),
{
}

} // verus!
