//! The fact environment: a name-to-value mapping seeded with the caller's
//! input record and extended, append-only, with each decision's outputs.

use vstd::prelude::*;

use crate::errors::{EvalError, EvalErrorV};
use crate::matcher::string_eq;

verus! {

/// The mapping denoted by a sequence of (key, value) pairs: later pairs win,
/// though the environment only ever holds unique keys.
pub open spec fn pairs_to_map(s: Seq<(Seq<char>, Seq<char>)>) -> Map<Seq<char>, Seq<char>>
    decreases s.len(),
{
    if s.len() == 0 {
        Map::empty()
    } else {
        pairs_to_map(s.drop_last()).insert(s.last().0, s.last().1)
    }
}

/// No two pairs bind the same key.
pub open spec fn unique_keys(s: Seq<(Seq<char>, Seq<char>)>) -> bool {
    forall|i: int, j: int| 0 <= i < j < s.len() ==> (#[trigger] s[i]).0 != (#[trigger] s[j]).0
}

/// A key is in the mapping exactly when some pair binds it.
pub proof fn lemma_pairs_to_map_contains(s: Seq<(Seq<char>, Seq<char>)>, k: Seq<char>)
    ensures
        pairs_to_map(s).contains_key(k) <==> exists|i: int| 0 <= i < s.len() && (#[trigger] s[i]).0
            == k,
    decreases s.len(),
{
    if s.len() > 0 {
        lemma_pairs_to_map_contains(s.drop_last(), k);
        if s.last().0 == k {
            assert(s[s.len() - 1].0 == k);
        } else if pairs_to_map(s).contains_key(k) {
            let i = choose|i: int| 0 <= i < s.drop_last().len() && (#[trigger] s.drop_last()[i]).0
                == k;
            assert(s[i].0 == k);
        } else {
            assert forall|i: int| 0 <= i < s.len() implies (#[trigger] s[i]).0 != k by {
                if i < s.len() - 1 {
                    assert(s.drop_last()[i] == s[i]);
                }
            }
        }
    }
}

/// With unique keys, the mapping sends each bound key to its pair's value.
proof fn lemma_pairs_to_map_index(s: Seq<(Seq<char>, Seq<char>)>, i: int)
    requires
        unique_keys(s),
        0 <= i < s.len(),
    ensures
        pairs_to_map(s).contains_key(s[i].0),
        pairs_to_map(s)[s[i].0] == s[i].1,
    decreases s.len(),
{
    if i == s.len() - 1 {
        assert(s.last() == s[i]);
    } else {
        assert(unique_keys(s.drop_last()));
        assert(s.drop_last()[i] == s[i]);
        lemma_pairs_to_map_index(s.drop_last(), i);
        assert(s[s.len() - 1].0 != s[i].0);
    }
}

/// Appending a pair inserts its binding.
proof fn lemma_pairs_to_map_push(s: Seq<(Seq<char>, Seq<char>)>, p: (Seq<char>, Seq<char>))
    ensures
        pairs_to_map(s.push(p)) == pairs_to_map(s).insert(p.0, p.1),
{
    assert(s.push(p).drop_last() =~= s);
    assert(s.push(p).last() == p);
}

/// A name-to-string-value mapping with unique names.
pub struct FactEnv {
    entries: Vec<(String, String)>,
}

impl View for FactEnv {
    type V = Map<Seq<char>, Seq<char>>;

    closed spec fn view(&self) -> Map<Seq<char>, Seq<char>> {
        pairs_to_map(self.entries.deep_view())
    }
}

impl FactEnv {
    /// The environment's names are unique; every method keeps this.
    pub closed spec fn wf(&self) -> bool {
        unique_keys(self.entries.deep_view())
    }

    /// An empty environment.
    pub fn new() -> (r: FactEnv)
        ensures
            r.wf(),
            r@ == Map::<Seq<char>, Seq<char>>::empty(),
    {
        FactEnv { entries: Vec::new() }
    }

    /// Looks a name up.
    pub fn get<'a>(&'a self, name: &String) -> (r: Option<&'a String>)
        requires
            self.wf(),
        ensures
            match r {
                Some(v) => self@.contains_key(name@) && v@ == self@[name@],
                None => !self@.contains_key(name@),
            },
    {
        let ghost s = self.entries.deep_view();
        let mut i: usize = 0;
        while i < self.entries.len()
            invariant
                self.wf(),
                i <= self.entries.len(),
                s == self.entries.deep_view(),
                forall|j: int| 0 <= j < i ==> (#[trigger] s[j]).0 != name@,
            decreases self.entries.len() - i,
        {
            if string_eq(&self.entries[i].0, name) {
                proof {
                    lemma_pairs_to_map_index(s, i as int);
                }
                return Some(&self.entries[i].1);
            }
            i += 1;
        }
        proof {
            lemma_pairs_to_map_contains(s, name@);
        }
        None
    }

    /// Looks a name that is known to be present up.
    pub fn lookup<'a>(&'a self, name: &String) -> (r: &'a String)
        requires
            self.wf(),
            self@.contains_key(name@),
        ensures
            r@ == self@[name@],
    {
        match self.get(name) {
            Some(v) => v,
            None => vstd::pervasive::unreached(),
        }
    }

    /// Binds a fresh name, or reports `DuplicateOutput` and leaves the
    /// environment unchanged.
    pub fn insert_once(&mut self, name: String, value: String) -> (r: Result<(), EvalError>)
        requires
            old(self).wf(),
        ensures
            final (self).wf(),
            match r {
                Ok(()) => !old(self)@.contains_key(name@) && final (self)@ == old(self)@.insert(
                    name@,
                    value@,
                ),
                Err(e) => old(self)@.contains_key(name@) && final (self)@ == old(self)@ && e@
                    == (EvalErrorV::DuplicateOutput { name: name@ }),
            },
    {
        let present = self.get(&name).is_some();
        if present {
            return Err(EvalError::DuplicateOutput { name });
        }
        let ghost s0 = self.entries.deep_view();
        proof {
            lemma_pairs_to_map_contains(s0, name@);
        }
        self.entries.push((name, value));
        proof {
            let ghost s1 = self.entries.deep_view();
            let ghost p = s1[s1.len() - 1];
            assert(s1 =~= s0.push(p));
            lemma_pairs_to_map_push(s0, p);
            assert(self@ =~= old(self)@.insert(p.0, p.1));
            assert forall|i: int, j: int| 0 <= i < j < s1.len() implies (#[trigger] s1[i]).0 != (
            #[trigger] s1[j]).0 by {
                if j < s1.len() - 1 {
                    assert(s1[i] == s0[i] && s1[j] == s0[j]);
                } else {
                    assert(s1[i] == s0[i]);
                }
            }
        }
        Ok(())
    }
}

} // verus!
