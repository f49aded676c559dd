use vstd::prelude::*;
use crate::codec::parse_index;
use crate::codec::spec_decode_index;
use crate::errors::IndexParseError;
use crate::errors::SearchError;
use crate::model::Index;
use crate::model::IndexV;
use crate::model::spec_find_pair;
use crate::model::lemma_find_pair_is;
use crate::model::lemma_find_pair_none;
use crate::search::SearchOutput;
use crate::search::spec_search;
use crate::search::search;

verus! {

/// The views of the cache's name-to-index pairs.
pub open spec fn cache_view(s: Seq<(String, Index)>) -> Seq<(Seq<char>, IndexV)> {
    s.map_values(|p: (String, Index)| (p.0@, p.1@))
}

/// Replaces the index under `name`, adding the pair when the name is new.
pub open spec fn spec_cache_upsert(
    s: Seq<(Seq<char>, IndexV)>,
    name: Seq<char>,
    iv: IndexV,
) -> Seq<(Seq<char>, IndexV)> {
    let t = spec_find_pair(s, name);
    if t < 0 {
        s.push((name, iv))
    } else {
        s.update(t, (name, iv))
    }
}

/// A cache of decoded indexes keyed by a caller-supplied name, so one index
/// can serve many queries without re-parsing. The caller owns the cache; a
/// program that wants a process-wide one holds it at its top level.
pub struct IndexCache {
    pub entries: Vec<(String, Index)>,
}

impl IndexCache {
    /// An empty cache.
    pub fn new() -> (r: IndexCache)
        ensures
            cache_view(r.entries@) == Seq::<(Seq<char>, IndexV)>::empty(),
    {
        let r = IndexCache { entries: Vec::new() };
        proof {
            assert(cache_view(r.entries@) =~= Seq::<(Seq<char>, IndexV)>::empty());
        }
        r
    }

    /// Decodes a byte blob and stores it under `name`, replacing what the
    /// name held. A blob that does not decode leaves the cache unchanged and
    /// hands the decode error back. On success the entry count is returned.
    pub fn parse_and_cache_index(&mut self, bytes: &Vec<u8>, name: &String) -> (r: Result<
        usize,
        IndexParseError,
    >)
        ensures
            (r is Ok) == (spec_decode_index(bytes@) is Some),
            r is Ok ==> cache_view(final(self).entries@) == spec_cache_upsert(
                cache_view(old(self).entries@),
                name@,
                spec_decode_index(bytes@)->0,
            ) && r->Ok_0 == spec_decode_index(bytes@)->0.entries.len(),
            r is Err ==> final(self).entries@ == old(self).entries@,
    {
        match parse_index(bytes) {
            Result::Err(e) => Result::Err(e),
            Result::Ok(idx) => {
                let count = idx.entries_len();
                cache_upsert(&mut self.entries, name, idx);
                Result::Ok(count)
            },
        }
    }

    /// Runs a query against the index cached under `name`; a name that holds
    /// no index is the one search error.
    pub fn search_from_cache(&self, name: &String, query: &String) -> (r: Result<
        SearchOutput,
        SearchError,
    >)
        ensures
            ({
                let t = spec_find_pair(cache_view(self.entries@), name@);
                match r {
                    Result::Ok(out) => t >= 0 && out@ == spec_search(
                        cache_view(self.entries@)[t].1,
                        query@,
                    ),
                    Result::Err(e) => t < 0 && e == SearchError::IndexNotInCache,
                }
            }),
    {
        let ghost cv = cache_view(self.entries@);
        let n = self.entries.len();
        let mut i: usize = 0;
        while i < n
            invariant
                n == self.entries@.len(),
                cv == cache_view(self.entries@),
                i <= n,
                forall|j: int| 0 <= j < i ==> cv[j].0 != name@,
            decreases n - i,
        {
            proof {
                assert(cv[i as int].0 == self.entries@[i as int].0@);
                assert(cv[i as int].1 == self.entries@[i as int].1@);
            }
            if self.entries[i].0 == *name {
                proof {
                    lemma_find_pair_is(cv, name@, i as int);
                }
                return Result::Ok(search(&self.entries[i].1, query));
            }
            i = i + 1;
        }
        proof {
            lemma_find_pair_none(cv, name@);
        }
        Result::Err(SearchError::IndexNotInCache)
    }
}

/// Stores an index under a name in the cache's pair list, replacing the pair
/// the name held, or appending a new one.
fn cache_upsert(entries: &mut Vec<(String, Index)>, name: &String, idx: Index)
    ensures
        cache_view(final(entries)@) == spec_cache_upsert(
            cache_view(old(entries)@),
            name@,
            idx@,
        ),
{
    let n = entries.len();
    let mut i: usize = 0;
    while i < n
        invariant
            n == entries@.len(),
            entries@ == old(entries)@,
            i <= n,
            forall|j: int| 0 <= j < i ==> cache_view(entries@)[j].0 != name@,
        decreases n - i,
    {
        proof {
            assert(cache_view(entries@)[i as int].0 == entries@[i as int].0@);
        }
        if entries[i].0 == *name {
            proof {
                lemma_find_pair_is(cache_view(entries@), name@, i as int);
            }
            let ghost cv = cache_view(entries@);
            let (_old_name, _old_idx) = entries.remove(i);
            entries.insert(i, (name.clone(), idx));
            proof {
                assert(cache_view(entries@) =~= cv.update(i as int, (name@, idx@)));
            }
            return ;
        }
        i = i + 1;
    }
    proof {
        lemma_find_pair_none(cache_view(entries@), name@);
    }
    entries.push((name.clone(), idx));
    proof {
        assert(cache_view(entries@) =~= cache_view(old(entries)@).push((name@, idx@)));
    }
}

} // verus!
