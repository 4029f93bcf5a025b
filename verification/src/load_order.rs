//! The global load order: the ordered registry of source-file names that
//! gives every source its stable small-integer index.
//!
//! The order of the names is load-bearing: it defines the meaning of every
//! `GlobalFormId`'s `source_index` from the moment the order is built.
//! Lookups are ASCII case-insensitive while storage preserves case.

use vstd::prelude::*;

verus! {

/// ASCII lowercase folding of one character.
pub open spec fn ascii_lower(c: char) -> char {
    if 65 <= c as u32 && c as u32 <= 90 {
        ((c as u32 + 32) as u8) as char
    } else {
        c
    }
}

/// ASCII lowercase folding of a character sequence.
pub open spec fn lower_seq(s: Seq<char>) -> Seq<char> {
    s.map_values(|c: char| ascii_lower(c))
}

/// Two names are the same entry when they agree up to ASCII case.
pub open spec fn name_matches(a: Seq<char>, b: Seq<char>) -> bool {
    lower_seq(a) == lower_seq(b)
}

/// Relies on `str::eq_ignore_ascii_case`: true exactly when the two strings
/// agree after ASCII lowercase folding of each character.
#[verifier::external_body]
fn eq_ignore_case(a: &str, b: &str) -> (r: bool)
    ensures
        r == name_matches(a@, b@),
{
    a.eq_ignore_ascii_case(b)
}

/// Ordered registry of source-file names.
pub struct LoadOrder {
    entries: Vec<String>,
}

/// Whether index `i` occurs in `used`.
pub open spec fn keeps(used: Seq<u16>, i: int) -> bool {
    exists|k: int| 0 <= k < used.len() && used[k] as int == i
}

/// How many indices below `i` occur in `used`: the new position that a
/// surviving index `i` takes after compaction.
pub open spec fn rank(used: Seq<u16>, i: int) -> int
    decreases i,
{
    if i <= 0 {
        0
    } else {
        rank(used, i - 1) + if keeps(used, i - 1) {
            1int
        } else {
            0int
        }
    }
}

proof fn lemma_rank_bounds(used: Seq<u16>, i: int)
    requires
        i >= 0,
    ensures
        0 <= rank(used, i) <= i,
        forall|j: int| 0 <= j <= i ==> 0 <= #[trigger] rank(used, j) <= rank(used, i),
    decreases i,
{
    if i > 0 {
        lemma_rank_bounds(used, i - 1);
    }
}

impl LoadOrder {
    /// The stored names, in order.
    pub closed spec fn names(self) -> Seq<Seq<char>> {
        self.entries@.map_values(|s: String| s@)
    }

    /// Stores the given names in the given order.  The caller determines the
    /// order, and it is final: it defines every source index thereafter.
    pub fn new(load_order: Vec<String>) -> (r: LoadOrder)
        ensures
            r.names() == load_order@.map_values(|s: String| s@),
    {
        LoadOrder { entries: load_order }
    }

    /// Index of the first entry matching `name` up to ASCII case.
    pub fn find_index(&self, name: &str) -> (r: Option<usize>)
        ensures
            match r {
                Some(i) => i < self.names().len() && name_matches(self.names()[i as int], name@)
                    && forall|j: int| 0 <= j < i ==> !name_matches(self.names()[j], name@),
                None => forall|j: int|
                    0 <= j < self.names().len() ==> !name_matches(self.names()[j], name@),
            },
    {
        let n = self.entries.len();
        let mut i: usize = 0;
        while i < n
            invariant
                n == self.entries.len(),
                0 <= i <= n,
                forall|j: int| 0 <= j < i ==> !name_matches(self.names()[j], name@),
            decreases n - i,
        {
            if eq_ignore_case(self.entries[i].as_str(), name) {
                return Some(i);
            }
            i += 1;
        }
        None
    }

    /// The source index that `name` contributes to a global form id, as the
    /// wider integer the packed form uses.
    pub fn get_form_id_prefix(&self, mod_name: &str) -> (r: Option<u32>)
        requires
            self.names().len() <= 0xFFFF,
        ensures
            match r {
                Some(i) => i < self.names().len() && name_matches(
                    self.names()[i as int],
                    mod_name@,
                ) && forall|j: int| 0 <= j < i ==> !name_matches(self.names()[j], mod_name@),
                None => forall|j: int|
                    0 <= j < self.names().len() ==> !name_matches(self.names()[j], mod_name@),
            },
    {
        match self.find_index(mod_name) {
            Some(i) => Some(i as u32),
            None => None,
        }
    }

    /// The name at `index`, if it exists.
    pub fn get(&self, index: u16) -> (r: Option<&str>)
        ensures
            match r {
                Some(s) => index < self.names().len() && s@ == self.names()[index as int],
                None => index >= self.names().len(),
            },
    {
        if (index as usize) < self.entries.len() {
            Some(self.entries[index as usize].as_str())
        } else {
            None
        }
    }

    pub fn is_empty(&self) -> (r: bool)
        ensures
            r == (self.names().len() == 0),
    {
        self.entries.len() == 0
    }

    /// All stored names, in order.
    pub fn entry_names(&self) -> (r: &Vec<String>)
        ensures
            r@.map_values(|s: String| s@) == self.names(),
    {
        &self.entries
    }

    pub fn len(&self) -> (r: usize)
        ensures
            r == self.names().len(),
    {
        self.entries.len()
    }

    /// Removes every entry whose index does not occur in `used_indexes` and
    /// compacts the rest, keeping their relative order.
    ///
    /// Returns `None` when nothing was removed (no renumbering is needed).
    /// Otherwise returns a remap table of the old length: entry `i` holds the
    /// new index of surviving old index `i`, and `None` for removed indices.
    /// Every previously minted source index must be rewritten through the
    /// table before it is used again.
    pub fn drain_unused(&mut self, used_indexes: &Vec<u16>) -> (r: Option<Vec<Option<u16>>>)
        requires
            old(self).names().len() <= 0xFFFF,
            forall|k: int|
                0 <= k < used_indexes@.len() ==> ((#[trigger] used_indexes@[k]) as int) < old(self).names().len(),
        ensures
            match r {
                None => {
                    &&& final(self).names() == old(self).names()
                    &&& forall|i: int| 0 <= i < old(self).names().len() ==> keeps(used_indexes@, i)
                },
                Some(remap) => {
                    &&& !(forall|i: int|
                        0 <= i < old(self).names().len() ==> keeps(used_indexes@, i))
                    &&& remap@.len() == old(self).names().len()
                    &&& forall|i: int|
                        0 <= i < old(self).names().len() ==> #[trigger] remap@[i] == (if keeps(
                            used_indexes@,
                            i,
                        ) {
                            Some(rank(used_indexes@, i) as u16)
                        } else {
                            None::<u16>
                        })
                    &&& final(self).names().len() == rank(
                        used_indexes@,
                        old(self).names().len() as int,
                    )
                    &&& forall|i: int|
                        0 <= i < old(self).names().len() && keeps(used_indexes@, i)
                            ==> final(self).names()[rank(used_indexes@, i)] == old(self).names()[i]
                },
            },
    {
        let ghost used = used_indexes@;
        let n = self.entries.len();

        // Mark which indices stay.
        let mut keep: Vec<bool> = Vec::new();
        let mut i: usize = 0;
        while i < n
            invariant
                0 <= i <= n,
                keep@.len() == i,
                forall|j: int| 0 <= j < i ==> !(#[trigger] keep@[j]),
            decreases n - i,
        {
            keep.push(false);
            i += 1;
        }
        let mut k: usize = 0;
        while k < used_indexes.len()
            invariant
                used == used_indexes@,
                keep@.len() == n,
                n == old(self).names().len(),
                self == old(self),
                0 <= k <= used.len(),
                forall|k2: int| 0 <= k2 < used.len() ==> (((#[trigger] used[k2]) as int) < n),
                forall|j: int| 0 <= j < n ==> #[trigger] keep@[j] == keeps(used.take(k as int), j),
            decreases used_indexes.len() - k,
        {
            let idx = used_indexes[k] as usize;
            keep.set(idx, true);
            proof {
                assert forall|j: int| 0 <= j < n implies #[trigger] keep@[j] == keeps(
                    used.take(k as int + 1),
                    j,
                ) by {
                    if j == used[k as int] as int {
                        assert(used.take(k as int + 1)[k as int] as int == j);
                    } else {
                        if keeps(used.take(k as int + 1), j) {
                            let w = choose|w: int|
                                0 <= w < used.take(k as int + 1).len() && (#[trigger] used.take(
                                    k as int + 1,
                                )[w]) as int == j;
                            assert(used.take(k as int)[w] as int == j || w == k as int);
                        }
                        if keeps(used.take(k as int), j) {
                            let w = choose|w: int|
                                0 <= w < used.take(k as int).len() && (#[trigger] used.take(
                                    k as int,
                                )[w]) as int == j;
                            assert(used.take(k as int + 1)[w] as int == j);
                        }
                    }
                }
            }
            k += 1;
        }
        proof {
            assert(used.take(used.len() as int) =~= used);
        }

        // Compact the entries and build the remap table.
        let mut new_entries: Vec<String> = Vec::new();
        let mut remap: Vec<Option<u16>> = Vec::new();
        let mut i: usize = 0;
        while i < n
            invariant
                keep@.len() == n,
                n == old(self).names().len(),
                n <= 0xFFFF,
                self == old(self),
                n == self.entries@.len(),
                forall|j: int| 0 <= j < n ==> #[trigger] keep@[j] == keeps(used, j),
                0 <= i <= n,
                remap@.len() == i,
                new_entries@.len() == rank(used, i as int),
                forall|j: int|
                    0 <= j < i ==> #[trigger] remap@[j] == (if keeps(used, j) {
                        Some(rank(used, j) as u16)
                    } else {
                        None::<u16>
                    }),
                forall|j: int|
                    0 <= j < i && keeps(used, j) ==> new_entries@.map_values(|s: String| s@)[rank(
                        used,
                        j,
                    )] == old(self).names()[j],
            decreases n - i,
        {
            proof {
                lemma_rank_bounds(used, i as int);
            }
            let ghost ne0 = new_entries@;
            if keep[i] {
                let new_index = new_entries.len() as u16;
                remap.push(Some(new_index));
                new_entries.push(self.entries[i].clone());
                proof {
                    assert(new_entries@.map_values(|s: String| s@) =~= ne0.map_values(
                        |s: String| s@,
                    ).push(self.entries@[i as int]@));
                    assert(rank(used, i as int + 1) == rank(used, i as int) + 1);
                    assert forall|j: int|
                        0 <= j < i + 1 && keeps(used, j) implies new_entries@.map_values(
                        |s: String| s@,
                    )[rank(used, j)] == old(self).names()[j] by {
                        lemma_rank_bounds(used, i as int);
                        if j < i {
                            assert(rank(used, j + 1) == rank(used, j) + 1);
                            assert(rank(used, j) < rank(used, i as int));
                            assert(new_entries@.map_values(|s: String| s@)[rank(used, j)]
                                == ne0.map_values(|s: String| s@)[rank(used, j)]);
                        }
                    }
                }
            } else {
                remap.push(None);
            }
            i += 1;
        }

        let removed_any = new_entries.len() < n;
        proof {
            lemma_rank_bounds(used, n as int);
            if !removed_any {
                // Every index is kept: rank(n) == n forces keeps at each step.
                assert forall|j: int| 0 <= j < n implies keeps(used, j) by {
                    if !keeps(used, j) {
                        lemma_rank_bounds(used, j);
                        assert(rank(used, j + 1) == rank(used, j));
                        lemma_rank_sandwich(used, j, n as int);
                    }
                }
            } else {
                if forall|i2: int| 0 <= i2 < n ==> keeps(used, i2) {
                    lemma_rank_full(used, n as int);
                }
            }
        }
        if !removed_any {
            proof {
                lemma_rank_full(used, n as int);
                assert forall|j: int|
                    0 <= j < n implies new_entries@.map_values(|s: String| s@)[j] == old(
                    self,
                ).names()[j] by {
                    assert(keeps(used, j));
                    lemma_rank_full(used, j);
                    assert(rank(used, j) == j);
                    assert(new_entries@.map_values(|s: String| s@)[rank(used, j)] == old(
                        self,
                    ).names()[j]);
                }
                assert(new_entries@.map_values(|s: String| s@) =~= old(self).names());
            }
            self.entries = new_entries;
            None
        } else {
            self.entries = new_entries;
            Some(remap)
        }
    }
}

proof fn lemma_rank_sandwich(used: Seq<u16>, j: int, n: int)
    requires
        0 <= j < n,
        rank(used, j + 1) == rank(used, j),
    ensures
        rank(used, n) <= n - 1,
    decreases n,
{
    if n == j + 1 {
        lemma_rank_bounds(used, j);
    } else {
        lemma_rank_sandwich(used, j, n - 1);
    }
}

proof fn lemma_rank_full(used: Seq<u16>, n: int)
    requires
        n >= 0,
        forall|i: int| 0 <= i < n ==> keeps(used, i),
    ensures
        rank(used, n) == n,
    decreases n,
{
    if n > 0 {
        lemma_rank_full(used, n - 1);
    }
}

/// Whether some surviving old index below `n` is sent to new index `v`.
pub open spec fn remap_hits(remap: Seq<Option<u16>>, n: int, v: u16) -> bool {
    exists|i: int| 0 <= i < n && #[trigger] remap[i] == Some(v)
}

/// The compaction invariant: after `drain_unused` returns a remap, every used
/// old index survives at its new position, every unused index is gone, and
/// the remap is a bijection between surviving old indices and the new range.
pub proof fn lemma_drain_unused_bijection(used: Seq<u16>, n: int, remap: Seq<Option<u16>>)
    requires
        n >= 0,
        remap.len() == n,
        forall|i: int|
            0 <= i < n ==> #[trigger] remap[i] == (if keeps(used, i) {
                Some(rank(used, i) as u16)
            } else {
                None::<u16>
            }),
        n <= 0xFFFF,
    ensures
        // injective on surviving indices
        forall|i1: int, i2: int|
            0 <= i1 < n && 0 <= i2 < n && keeps(used, i1) && keeps(used, i2) && #[trigger] remap[i1]
                == #[trigger] remap[i2] ==> i1 == i2,
        // every new index below the new length is hit by some surviving index
        forall|v: u16| (v as int) < rank(used, n) ==> #[trigger] remap_hits(remap, n, v),
{
    assert forall|i1: int, i2: int|
        0 <= i1 < n && 0 <= i2 < n && keeps(used, i1) && keeps(used, i2) && #[trigger] remap[i1]
            == #[trigger] remap[i2] implies i1 == i2 by {
        if i1 != i2 {
            let a = if i1 < i2 {
                i1
            } else {
                i2
            };
            let b = if i1 < i2 {
                i2
            } else {
                i1
            };
            lemma_rank_bounds(used, a);
            lemma_rank_bounds(used, b);
            assert(rank(used, a + 1) == rank(used, a) + 1);
            assert(forall|j: int| 0 <= j <= b ==> 0 <= #[trigger] rank(used, j) <= rank(used, b))
                by {
                lemma_rank_bounds(used, b);
            }
            assert(rank(used, a + 1) <= rank(used, b));
        }
    }
    assert forall|v: u16| (v as int) < rank(used, n) implies #[trigger] remap_hits(
        remap,
        n,
        v,
    ) by {
        lemma_rank_bounds(used, n);
        lemma_rank_hits(used, n, v as int);
        let i = choose|i: int| 0 <= i < n && keeps(used, i) && rank(used, i) == v as int;
        assert(remap[i] == Some(v));
    }
}

/// Every position below `rank(used, n)` is the rank of some kept index.
pub proof fn lemma_rank_hits(used: Seq<u16>, n: int, v: int)
    requires
        n >= 0,
        0 <= v < rank(used, n),
    ensures
        exists|i: int| 0 <= i < n && keeps(used, i) && rank(used, i) == v,
    decreases n,
{
    lemma_rank_bounds(used, n);
    if n > 0 {
        if keeps(used, n - 1) && rank(used, n - 1) == v {
            assert(0 <= n - 1 < n && keeps(used, n - 1) && rank(used, n - 1) == v);
        } else {
            lemma_rank_bounds(used, n - 1);
            lemma_rank_hits(used, n - 1, v);
        }
    }
}


/// Whether `nm` is the name of some used index of the old list.
pub open spec fn name_from_kept(used: Seq<u16>, names_old: Seq<Seq<char>>, nm: Seq<char>) -> bool {
    exists|i: int| 0 <= i < names_old.len() && keeps(used, i) && nm == #[trigger] names_old[i]
}

/// After compaction no name from an unused index survives: every entry of the
/// compacted list is the entry of some used old index.
pub proof fn lemma_drain_names_origin(
    used: Seq<u16>,
    names_old: Seq<Seq<char>>,
    names_new: Seq<Seq<char>>,
)
    requires
        names_new.len() == rank(used, names_old.len() as int),
        forall|i: int|
            0 <= i < names_old.len() && keeps(used, i) ==> names_new[rank(used, i)]
                == names_old[i],
    ensures
        forall|v: int|
            0 <= v < names_new.len() ==> #[trigger] name_from_kept(
                used,
                names_old,
                names_new[v],
            ),
{
    let n = names_old.len() as int;
    assert forall|v: int| 0 <= v < names_new.len() implies #[trigger] name_from_kept(
        used,
        names_old,
        names_new[v],
    ) by {
        lemma_rank_hits(used, n, v);
        let i = choose|i: int| 0 <= i < n && keeps(used, i) && rank(used, i) == v;
        assert(names_new[rank(used, i)] == names_old[i]);
        assert(names_new[v] == names_old[i]);
    }
}

} // verus!
