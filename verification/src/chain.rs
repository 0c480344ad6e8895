//! The nearest-chain core: a set of named colors in ascending name
//! order, and the greedy nearest-neighbor traversal over it.

use vstd::prelude::*;
use vstd::set_lib::lemma_len_subset;
use vstd::set_lib::lemma_int_range;
use vstd::set_lib::set_int_range;

use crate::color::Color;
use crate::color::spec_dist_sq;
use crate::order::lex_lt;
use crate::order::lemma_lex_lt_irrefl;
use crate::order::lemma_lex_lt_trans;
use crate::order::str_lt;

verus! {

/// One named color.
pub struct ColorEntry {
    pub name: String,
    pub color: Color,
}

/// The working collection of the core: named colors, kept in strictly
/// ascending name order, so that every name is unique and iteration is
/// deterministic.
pub struct ColorSet {
    entries: Vec<ColorEntry>,
}

/// Index `i` names an entry that the greedy step starting at `f` may
/// still pick: a real index, not the start itself, and not yet used.
pub open spec fn is_candidate(s: Seq<ColorEntry>, used: Set<int>, f: int, i: int) -> bool {
    0 <= i < s.len() && i != f && !used.contains(i)
}

/// One scan step of the greedy nearest-neighbor search: walk the
/// entries in order, keeping the first candidate that is strictly
/// closer than the best so far, so that ties keep the earlier entry.
pub open spec fn nearest_scan(
    s: Seq<ColorEntry>,
    used: Set<int>,
    f: int,
    i: int,
    best: Option<int>,
) -> Option<int>
    decreases s.len() - i,
{
    if i >= s.len() {
        best
    } else {
        let better = match best {
            None => is_candidate(s, used, f, i),
            Some(b) => is_candidate(s, used, f, i) && spec_dist_sq(s[f].color, s[i].color)
                < spec_dist_sq(s[f].color, s[b].color),
        };
        nearest_scan(s, used, f, i + 1, if better {
            Some(i)
        } else {
            best
        })
    }
}

/// The unused entry nearest to entry `f`, or `None` if no candidate is left.
pub open spec fn nearest_from(s: Seq<ColorEntry>, used: Set<int>, f: int) -> Option<int> {
    nearest_scan(s, used, f, 0, None)
}

/// The indices the greedy traversal emits from step `f` on, given the
/// set of indices already used. The very first step also emits its own
/// starting index before the neighbor it found; every later step emits
/// only the neighbor, if any.
pub open spec fn chain_indices_from(s: Seq<ColorEntry>, f: int, used: Set<int>) -> Seq<int>
    decreases s.len() - f,
{
    if f < 0 || f >= s.len() {
        Seq::empty()
    } else {
        let found = nearest_from(s, used, f);
        let head: Seq<int> = if f == 0 {
            seq![0int]
        } else {
            Seq::empty()
        };
        let used1 = if f == 0 {
            used.insert(0)
        } else {
            used
        };
        match found {
            Some(j) => head.push(j) + chain_indices_from(s, f + 1, used1.insert(j)),
            None => head + chain_indices_from(s, f + 1, used1),
        }
    }
}

/// The indices of the whole greedy traversal of `s`.
pub open spec fn chain_indices(s: Seq<ColorEntry>) -> Seq<int> {
    chain_indices_from(s, 0, Set::empty())
}

impl View for ColorSet {
    type V = Seq<ColorEntry>;

    closed spec fn view(&self) -> Seq<ColorEntry> {
        self.entries@
    }
}

impl ColorSet {
    /// Entries stand in strictly ascending name order.
    pub open spec fn wf(&self) -> bool {
        forall|i: int, j: int|
            0 <= i < j < self@.len() ==> lex_lt(#[trigger] self@[i].name@, #[trigger] self@[j].name@)
    }

    /// An empty collection.
    pub fn new() -> (r: ColorSet)
        ensures
            r@.len() == 0,
            r.wf(),
    {
        ColorSet { entries: Vec::new() }
    }

    /// How many named colors the collection holds.
    pub fn len(&self) -> (n: usize)
        ensures
            n == self@.len(),
    {
        self.entries.len()
    }

    /// The entry at an index.
    pub fn entry(&self, i: usize) -> (e: &ColorEntry)
        requires
            i < self@.len(),
        ensures
            e.name@ == self@[i as int].name@,
            e.color == self@[i as int].color,
    {
        &self.entries[i]
    }

    /// Appends a named color. The name must come strictly after every
    /// name already present; the collection is built in ascending name
    /// order. Returns false, and changes nothing, if it does not.
    pub fn insert(&mut self, name: String, color: Color) -> (ok: bool)
        requires
            old(self).wf(),
        ensures
            final(self).wf(),
            ok == (old(self)@.len() == 0 || lex_lt(
                old(self)@[old(self)@.len() - 1].name@,
                name@,
            )),
            ok ==> final(self)@.len() == old(self)@.len() + 1 && final(self)@[old(self)@.len() as int].name@
                == name@ && final(self)@[old(self)@.len() as int].color == color && (forall|k: int|
                0 <= k < old(self)@.len() ==> final(self)@[k].name@ == #[trigger] old(
                    self,
                )@[k].name@ && final(self)@[k].color == old(self)@[k].color),
            !ok ==> final(self)@ == old(self)@,
    {
        let n = self.entries.len();
        if n > 0 {
            let last = &self.entries[n - 1];
            if !str_lt(last.name.as_str(), name.as_str()) {
                return false;
            }
        }
        let ghost prev = self.entries@;
        self.entries.push(ColorEntry { name, color });
        proof {
            assert forall|i: int, j: int| 0 <= i < j < self@.len() implies lex_lt(
                #[trigger] self@[i].name@,
                #[trigger] self@[j].name@,
            ) by {
                if j < prev.len() {
                } else {
                    assert(j == prev.len());
                    if i < prev.len() - 1 {
                        assert(lex_lt(prev[i].name@, prev[prev.len() - 1].name@));
                        lemma_lex_lt_trans(prev[i].name@, prev[prev.len() - 1].name@, self@[j].name@);
                    }
                }
            }
        }
        true
    }

    /// The greedy nearest-neighbor traversal: walks the entries in
    /// name order; the first step emits its own entry and then, like
    /// every later step, the unused entry nearest to it, until the
    /// outer walk has visited every entry once.
    #[verifier::loop_isolation(false)]
    pub fn nearest_chain(&self) -> (chain: Vec<ColorEntry>)
        requires
            self.wf(),
        ensures
            chain@.len() == chain_indices(self@).len(),
            forall|k: int|
                0 <= k < chain@.len() ==> #[trigger] chain@[k].name@ == self@[chain_indices(
                    self@,
                )[k]].name@ && chain@[k].color == self@[chain_indices(self@)[k]].color,
            self@.len() == 0 ==> chain@.len() == 0,
            self@.len() > 0 ==> 1 <= chain@.len() <= self@.len(),
            self@.len() > 0 ==> chain@[0].name@ == self@[0].name@,
            forall|k1: int, k2: int|
                0 <= k1 < k2 < chain@.len() ==> #[trigger] chain@[k1].name@ != #[trigger] chain@[k2].name@,
    {
        let ghost s = self@;
        let n = self.entries.len();
        let mut used: Vec<bool> = Vec::new();
        let mut i: usize = 0;
        while i < n
            invariant
                i <= n,
                used@.len() == i,
                forall|k: int| 0 <= k < i ==> !(#[trigger] used@[k]),
            decreases n - i,
        {
            used.push(false);
            i = i + 1;
        }
        let mut chain: Vec<ColorEntry> = Vec::new();
        let ghost mut used_set: Set<int> = Set::empty();
        let ghost mut taken: Seq<int> = Seq::empty();
        proof {
            assert(chain_indices(s) =~= taken + chain_indices_from(s, 0, used_set));
        }
        let mut f: usize = 0;
        while f < n
            invariant
                f <= n,
                used@.len() == n,
                forall|k: int| 0 <= k < n ==> #[trigger] used@[k] == used_set.contains(k),
                taken.len() == chain@.len(),
                forall|k: int|
                    0 <= k < taken.len() ==> 0 <= #[trigger] taken[k] < n,
                forall|k: int|
                    0 <= k < taken.len() ==> #[trigger] chain@[k].name@ == s[taken[k]].name@
                        && chain@[k].color == s[taken[k]].color,
                taken.no_duplicates(),
                forall|k: int| 0 <= k < taken.len() ==> used_set.contains(#[trigger] taken[k]),
                chain_indices(s) == taken + chain_indices_from(s, f as int, used_set),
                f == 0 ==> taken == Seq::<int>::empty() && used_set == Set::<int>::empty(),
                f > 0 && n > 0 ==> taken.len() >= 1 && taken[0] == 0,
            decreases n - f,
        {
            let fcolor = self.entries[f].color;
            let mut best: Option<usize> = None;
            let mut best_dist: u32 = 0;
            let mut si: usize = 0;
            while si < n
                invariant
                    si <= n,
                    match best {
                        None => best_dist == 0,
                        Some(b) => is_candidate(s, used_set, f as int, b as int) && best_dist as int
                            == spec_dist_sq(s[f as int].color, s[b as int].color),
                    },
                    nearest_from(s, used_set, f as int) == nearest_scan(
                        s,
                        used_set,
                        f as int,
                        si as int,
                        match best {
                            None => None::<int>,
                            Some(b) => Some(b as int),
                        },
                    ),
                decreases n - si,
            {
                if si != f && !used[si] {
                    let d = fcolor.distance_squared(&self.entries[si].color);
                    if best.is_none() || d < best_dist {
                        best = Some(si);
                        best_dist = d;
                    }
                }
                si = si + 1;
            }
            proof {
                assert(nearest_from(s, used_set, f as int) == (match best {
                    None => None::<int>,
                    Some(b) => Some(b as int),
                }));
                assert(chain_indices_from(s, f as int, used_set) == (match nearest_from(
                    s,
                    used_set,
                    f as int,
                ) {
                    Some(j) => (if f == 0 {
                        seq![0int]
                    } else {
                        Seq::<int>::empty()
                    }).push(j) + chain_indices_from(s, f as int + 1, (if f == 0 {
                        used_set.insert(0)
                    } else {
                        used_set
                    }).insert(j)),
                    None => (if f == 0 {
                        seq![0int]
                    } else {
                        Seq::<int>::empty()
                    }) + chain_indices_from(s, f as int + 1, if f == 0 {
                        used_set.insert(0)
                    } else {
                        used_set
                    }),
                }));
            }
            let ghost taken_before = taken;
            if f == 0 {
                used.set(0, true);
                let e0 = &self.entries[0];
                chain.push(ColorEntry { name: e0.name.clone(), color: e0.color });
                proof {
                    used_set = used_set.insert(0);
                    taken = taken.push(0);
                }
            }
            if let Some(j) = best {
                used.set(j, true);
                let ej = &self.entries[j];
                chain.push(ColorEntry { name: ej.name.clone(), color: ej.color });
                proof {
                    used_set = used_set.insert(j as int);
                    taken = taken.push(j as int);
                }
            }
            proof {
                assert(chain_indices(s) =~= taken + chain_indices_from(s, f as int + 1, used_set));
            }
            f = f + 1;
        }
        proof {
            assert(chain_indices_from(s, n as int, used_set) =~= Seq::<int>::empty());
            assert(chain_indices(s) =~= taken);
            if taken.len() > 0 {
                taken.unique_seq_to_set();
                assert(taken.to_set().subset_of(set_int_range(0, n as int))) by {
                    assert forall|x: int| taken.to_set().contains(x) implies set_int_range(
                        0,
                        n as int,
                    ).contains(x) by {
                        let k = choose|k: int| 0 <= k < taken.len() && taken[k] == x;
                        assert(0 <= taken[k] < n);
                    }
                }
                lemma_int_range(0, n as int);
                lemma_len_subset(taken.to_set(), set_int_range(0, n as int));
            }
            assert forall|k1: int, k2: int| 0 <= k1 < k2 < chain@.len() implies #[trigger] chain@[k1].name@
                != #[trigger] chain@[k2].name@ by {
                assert(taken[k1] != taken[k2]);
                if taken[k1] < taken[k2] {
                    assert(lex_lt(s[taken[k1]].name@, s[taken[k2]].name@));
                    if s[taken[k1]].name@ == s[taken[k2]].name@ {
                        lemma_lex_lt_irrefl(s[taken[k1]].name@);
                    }
                } else {
                    assert(lex_lt(s[taken[k2]].name@, s[taken[k1]].name@));
                    if s[taken[k1]].name@ == s[taken[k2]].name@ {
                        lemma_lex_lt_irrefl(s[taken[k1]].name@);
                    }
                }
            }
        }
        chain
    }
}

/// The greedy step never passes over an equally near candidate that
/// comes earlier: whatever `nearest_from` picks, every candidate before
/// it is strictly farther away, and when no candidate is left it picks
/// nothing.
pub proof fn lemma_nearest_first_wins(s: Seq<ColorEntry>, used: Set<int>, f: int)
    ensures
        match nearest_from(s, used, f) {
            None => forall|t: int| !is_candidate(s, used, f, t),
            Some(m) => is_candidate(s, used, f, m) && (forall|t: int|
                is_candidate(s, used, f, t) && t != m ==> spec_dist_sq(s[f].color, s[m].color)
                    < spec_dist_sq(s[f].color, s[t].color) || (spec_dist_sq(s[f].color, s[m].color)
                    == spec_dist_sq(s[f].color, s[t].color) && m < t)),
        },
{
    lemma_nearest_scan_char(s, used, f, 0, None);
}

/// The scan invariant behind `lemma_nearest_first_wins`: the running
/// best summarizes the prefix already scanned.
proof fn lemma_nearest_scan_char(s: Seq<ColorEntry>, used: Set<int>, f: int, i: int, best: Option<int>)
    requires
        0 <= i,
        match best {
            None => forall|t: int| 0 <= t < i ==> !is_candidate(s, used, f, t),
            Some(b) => is_candidate(s, used, f, b) && b < i && (forall|t: int|
                0 <= t < i && is_candidate(s, used, f, t) && t != b ==> spec_dist_sq(
                    s[f].color,
                    s[b].color,
                ) < spec_dist_sq(s[f].color, s[t].color) || (spec_dist_sq(s[f].color, s[b].color)
                    == spec_dist_sq(s[f].color, s[t].color) && b < t)),
        },
    ensures
        match nearest_scan(s, used, f, i, best) {
            None => forall|t: int| !is_candidate(s, used, f, t),
            Some(m) => is_candidate(s, used, f, m) && (forall|t: int|
                is_candidate(s, used, f, t) && t != m ==> spec_dist_sq(s[f].color, s[m].color)
                    < spec_dist_sq(s[f].color, s[t].color) || (spec_dist_sq(s[f].color, s[m].color)
                    == spec_dist_sq(s[f].color, s[t].color) && m < t)),
        },
    decreases s.len() - i,
{
    if i >= s.len() {
        assert forall|t: int| is_candidate(s, used, f, t) implies 0 <= t < i by {}
    } else {
        let better = match best {
            None => is_candidate(s, used, f, i),
            Some(b) => is_candidate(s, used, f, i) && spec_dist_sq(s[f].color, s[i].color)
                < spec_dist_sq(s[f].color, s[b].color),
        };
        let next = if better {
            Some(i)
        } else {
            best
        };
        lemma_nearest_scan_char(s, used, f, i + 1, next);
    }
}

} // verus!
