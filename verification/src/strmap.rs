//! A small string-keyed mapping, used for response headers, request headers
//! and path parameters. It is modelled in specifications as a
//! `Map<Seq<char>, Seq<char>>`; insertion order is irrelevant to the model.

use vstd::prelude::*;

verus! {

/// The mapping that a sequence of key/value entries denotes, later entries
/// winning on a key collision.
pub open spec fn map_of(s: Seq<(String, String)>) -> Map<Seq<char>, Seq<char>>
    decreases s.len(),
{
    if s.len() == 0 {
        Map::empty()
    } else {
        map_of(s.drop_last()).insert(s.last().0@, s.last().1@)
    }
}

/// No two entries share a key.
pub open spec fn unique_keys(s: Seq<(String, String)>) -> bool {
    forall|i: int, j: int| 0 <= i < j < s.len() ==> s[i].0@ != s[j].0@
}

/// A string-to-string mapping with unique keys.
#[derive(Debug, PartialEq, Eq)]
pub struct StrMap {
    entries: Vec<(String, String)>,
}

impl View for StrMap {
    type V = Map<Seq<char>, Seq<char>>;

    closed spec fn view(&self) -> Map<Seq<char>, Seq<char>> {
        map_of(self.entries@)
    }
}

pub proof fn lemma_map_of_keys(s: Seq<(String, String)>)
    ensures
        forall|k: Seq<char>|
            map_of(s).contains_key(k) <==> exists|i: int| 0 <= i < s.len() && s[i].0@ == k,
    decreases s.len(),
{
    if s.len() > 0 {
        lemma_map_of_keys(s.drop_last());
        assert forall|k: Seq<char>| map_of(s).contains_key(k) implies exists|i: int|
            0 <= i < s.len() && s[i].0@ == k by {
            if k == s.last().0@ {
                assert(s[s.len() - 1].0@ == k);
            } else {
                assert(map_of(s.drop_last()).contains_key(k));
                let i = choose|i: int| 0 <= i < s.drop_last().len() && s.drop_last()[i].0@ == k;
                assert(s.drop_last()[i] == s[i]);
                assert(s[i].0@ == k);
            }
        }
        assert forall|k: Seq<char>|
            (exists|i: int| 0 <= i < s.len() && s[i].0@ == k) implies map_of(s).contains_key(
            k,
        ) by {
            let i = choose|i: int| 0 <= i < s.len() && s[i].0@ == k;
            if i < s.len() - 1 {
                assert(s.drop_last()[i].0@ == k);
                assert(map_of(s.drop_last()).contains_key(k));
            } else {
                assert(k == s.last().0@);
            }
        }
    }
}

pub proof fn lemma_map_of_values(s: Seq<(String, String)>)
    requires
        unique_keys(s),
    ensures
        forall|i: int| 0 <= i < s.len() ==> map_of(s)[#[trigger] s[i].0@] == s[i].1@,
    decreases s.len(),
{
    if s.len() > 0 {
        assert(unique_keys(s.drop_last()));
        lemma_map_of_values(s.drop_last());
        assert forall|i: int| 0 <= i < s.len() implies map_of(s)[#[trigger] s[i].0@]
            == s[i].1@ by {
            if i < s.len() - 1 {
                assert(s.drop_last()[i] == s[i]);
                assert(s[i].0@ != s.last().0@);
            }
        }
    }
}

/// Updating the value at an existing key position denotes the same mapping as
/// a model-level insert.
proof fn lemma_map_of_update(s: Seq<(String, String)>, i: int, e: (String, String))
    requires
        unique_keys(s),
        0 <= i < s.len(),
        s[i].0@ == e.0@,
    ensures
        map_of(s.update(i, e)) == map_of(s).insert(e.0@, e.1@),
        unique_keys(s.update(i, e)),
    decreases s.len(),
{
    let t = s.update(i, e);
    if i == s.len() - 1 {
        assert(t.drop_last() =~= s.drop_last());
        assert(map_of(t) == map_of(s.drop_last()).insert(e.0@, e.1@));
        assert(map_of(s).insert(e.0@, e.1@) == map_of(s.drop_last()).insert(s.last().0@,
            s.last().1@).insert(e.0@, e.1@));
        assert(map_of(s.drop_last()).insert(s.last().0@, s.last().1@).insert(e.0@, e.1@)
            =~= map_of(s.drop_last()).insert(e.0@, e.1@));
    } else {
        assert(unique_keys(s.drop_last()));
        assert(t.drop_last() =~= s.drop_last().update(i, e));
        lemma_map_of_update(s.drop_last(), i, e);
        assert(map_of(t) == map_of(s.drop_last()).insert(e.0@, e.1@).insert(s.last().0@,
            s.last().1@));
        assert(s[i].0@ != s.last().0@);
        assert(map_of(s.drop_last()).insert(e.0@, e.1@).insert(s.last().0@, s.last().1@)
            =~= map_of(s.drop_last()).insert(s.last().0@, s.last().1@).insert(e.0@, e.1@));
    }
}

impl StrMap {
    /// The entries as a sequence, for specifications that need the
    /// representation rather than the mapping.
    pub closed spec fn entries_seq(&self) -> Seq<(String, String)> {
        self.entries@
    }

    /// The representation invariant: keys occur at most once.
    pub closed spec fn wf(&self) -> bool {
        unique_keys(self.entries@)
    }

    /// An empty mapping.
    pub fn new() -> (r: StrMap)
        ensures
            r.wf(),
            r@ == Map::<Seq<char>, Seq<char>>::empty(),
    {
        StrMap { entries: Vec::new() }
    }

    /// Wrap a list of entries whose keys are already unique.
    pub fn from_pairs(pairs: Vec<(String, String)>) -> (r: StrMap)
        requires
            unique_keys(pairs@),
        ensures
            r.wf(),
            r@ == map_of(pairs@),
            r.entries_seq() == pairs@,
    {
        StrMap { entries: pairs }
    }

    /// Bind `key` to `value`, replacing any earlier binding of `key`.
    #[verifier::loop_isolation(false)]
    pub fn insert(&mut self, key: String, value: String)
        requires
            old(self).wf(),
        ensures
            final(self).wf(),
            final(self)@ == old(self)@.insert(key@, value@),
    {
        let n = self.entries.len();
        let mut i: usize = 0;
        while i < n
            invariant
                0 <= i <= n,
                n == self.entries.len(),
                self.entries@ == old(self).entries@,
                forall|j: int| 0 <= j < i ==> self.entries@[j].0@ != key@,
            decreases n - i,
        {
            if self.entries[i].0 == key {
                proof {
                    lemma_map_of_update(self.entries@, i as int, (key, value));
                }
                self.entries[i] = (key, value);
                return ;
            }
            i += 1;
        }
        self.entries.push((key, value));
        proof {
            assert(self.entries@.drop_last() =~= old(self).entries@);
        }
    }

    /// Look the key up; the result is exactly what the mapping holds for it.
    #[verifier::loop_isolation(false)]
    pub fn get(&self, key: &String) -> (r: Option<&String>)
        requires
            self.wf(),
        ensures
            match r {
                Some(v) => self@.contains_key(key@) && v@ == self@[key@],
                None => !self@.contains_key(key@),
            },
    {
        proof {
            lemma_map_of_keys(self.entries@);
            lemma_map_of_values(self.entries@);
        }
        let n = self.entries.len();
        let mut i: usize = 0;
        while i < n
            invariant
                0 <= i <= n,
                n == self.entries.len(),
                forall|j: int| 0 <= j < i ==> self.entries@[j].0@ != key@,
            decreases n - i,
        {
            if self.entries[i].0 == *key {
                return Some(&self.entries[i].1);
            }
            i += 1;
        }
        None
    }

    /// Whether the key is bound.
    pub fn contains(&self, key: &String) -> (r: bool)
        requires
            self.wf(),
        ensures
            r == self@.contains_key(key@),
    {
        match self.get(key) {
            Some(_) => true,
            None => false,
        }
    }

    /// The entries, for callers that hand the mapping on as plain pairs.
    pub fn entries(&self) -> (r: &Vec<(String, String)>)
        ensures
            r@ == self.entries_seq(),
            map_of(r@) == self@,
    {
        &self.entries
    }

    /// Bind every entry of `other`, so that `other` wins on key collisions.
    #[verifier::loop_isolation(false)]
    pub fn merge_from(&mut self, other: &StrMap)
        requires
            old(self).wf(),
            other.wf(),
        ensures
            final(self).wf(),
            final(self)@ == old(self)@.union_prefer_right(other@),
    {
        let src = other.entries();
        let n = src.len();
        let mut i: usize = 0;
        proof {
            lemma_map_of_keys(other.entries_seq());
            lemma_map_of_values(other.entries_seq());
        }
        while i < n
            invariant
                0 <= i <= n,
                n == other.entries_seq().len(),
                src@ == other.entries_seq(),
                unique_keys(other.entries_seq()),
                self.wf(),
                self@ == old(self)@.union_prefer_right(map_of(other.entries_seq().take(i as int))),
                forall|j: int|
                    0 <= j < other.entries_seq().len() ==> map_of(other.entries_seq())[
                        #[trigger] other.entries_seq()[j].0@
                    ] == other.entries_seq()[j].1@,
                forall|k: Seq<char>|
                    map_of(other.entries_seq()).contains_key(k) <==> exists|j: int|
                        0 <= j < other.entries_seq().len() && other.entries_seq()[j].0@ == k,
            decreases n - i,
        {
            let entry = &src[i];
            self.insert(entry.0.clone(), entry.1.clone());
            proof {
                assert(other.entries_seq().take(i + 1).drop_last() =~= other.entries_seq().take(
                    i as int,
                ));
                assert(self@ =~= old(self)@.union_prefer_right(
                    map_of(other.entries_seq().take(i + 1)),
                ));
            }
            i += 1;
        }
        proof {
            assert(other.entries_seq().take(n as int) =~= other.entries_seq());
        }
    }
}

} // verus!
