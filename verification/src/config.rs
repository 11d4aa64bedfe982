//! The configuration registry: names and values given at startup, read by
//! `CONFIG GET` and never changed afterwards.

use crate::store::pairs_of;
use crate::text::str_eq;
use vstd::prelude::*;

verus! {

/// The map that a list of settings stands for. Where a name is given more
/// than once, the last one counts.
pub open spec fn settings(pairs: Seq<(Seq<char>, Seq<char>)>) -> Map<Seq<char>, Seq<char>>
    decreases pairs.len(),
{
    if pairs.len() == 0 {
        Map::empty()
    } else {
        settings(pairs.drop_last()).insert(pairs.last().0, pairs.last().1)
    }
}

/// The setting at `j` counts if its name is not given again after it.
proof fn lemma_settings_at(pairs: Seq<(Seq<char>, Seq<char>)>, j: int)
    requires
        0 <= j < pairs.len(),
        forall|k: int| j < k < pairs.len() ==> (#[trigger] pairs[k]).0 != pairs[j].0,
    ensures
        settings(pairs).contains_key(pairs[j].0),
        settings(pairs)[pairs[j].0] == pairs[j].1,
    decreases pairs.len(),
{
    if j < pairs.len() - 1 {
        let head = pairs.drop_last();
        assert(pairs.last() == pairs[pairs.len() - 1]);
        assert forall|k: int| j < k < head.len() implies (#[trigger] head[k]).0 != head[j].0 by {
            assert(head[k] == pairs[k]);
        }
        lemma_settings_at(head, j);
    }
}

/// A name that no setting gives is not in the map.
proof fn lemma_settings_absent(pairs: Seq<(Seq<char>, Seq<char>)>, name: Seq<char>)
    requires
        forall|k: int| 0 <= k < pairs.len() ==> (#[trigger] pairs[k]).0 != name,
    ensures
        !settings(pairs).contains_key(name),
    decreases pairs.len(),
{
    if pairs.len() > 0 {
        let head = pairs.drop_last();
        assert(pairs.last() == pairs[pairs.len() - 1]);
        assert forall|k: int| 0 <= k < head.len() implies (#[trigger] head[k]).0 != name by {
            assert(head[k] == pairs[k]);
        }
        lemma_settings_absent(head, name);
    }
}

/// The configuration registry.
pub struct Config {
    pairs: Vec<(String, String)>,
}

impl View for Config {
    type V = Map<Seq<char>, Seq<char>>;

    closed spec fn view(&self) -> Map<Seq<char>, Seq<char>> {
        settings(pairs_of(self.pairs@))
    }
}

impl Config {
    /// The registry that holds the settings of `pairs`, each a name and its
    /// value.
    pub fn new(pairs: Vec<(String, String)>) -> (c: Config)
        ensures
            c@ == settings(pairs_of(pairs@)),
    {
        Config { pairs }
    }

    /// The value of `name`, if it was configured.
    pub fn get(&self, name: &str) -> (r: Option<String>)
        ensures
            match r {
                Some(value) => self@.contains_key(name@) && self@[name@] == value@,
                None => !self@.contains_key(name@),
            },
    {
        let ghost all = pairs_of(self.pairs@);
        let mut i: usize = self.pairs.len();
        while i > 0
            invariant
                all == pairs_of(self.pairs@),
                0 <= i <= self.pairs@.len(),
                forall|k: int| i <= k < all.len() ==> (#[trigger] all[k]).0 != name@,
            decreases i,
        {
            i = i - 1;
            if str_eq(self.pairs[i].0.as_str(), name) {
                proof {
                    lemma_settings_at(all, i as int);
                }
                return Some(self.pairs[i].1.clone());
            }
        }
        proof {
            lemma_settings_absent(all, name@);
        }
        None
    }
}

} // verus!
