//! Filter predicates over stored rows, and their composition.
//!
//! A list query combines a set of independent conditions with logical AND;
//! each condition is one `Predicate`. Adding a new kind of condition means
//! adding a variant here, without touching the composition logic.

use vstd::prelude::*;
use vstd::string::StrSliceExecFns;
use crate::expense::Row;

verus! {

/// ASCII-fold one character: `A`..`Z` become `a`..`z`, all else unchanged.
pub open spec fn lower_char(c: char) -> char {
    if 65 <= c as u32 && c as u32 <= 90 {
        ((c as u32 + 32) as u32) as char
    } else {
        c
    }
}

/// ASCII-fold a whole string.
pub open spec fn lower(s: Seq<char>) -> Seq<char> {
    s.map_values(|c: char| lower_char(c))
}

/// `q` occurs in `name` as a substring, compared case-insensitively
/// (ASCII folding). The empty query occurs in every name.
pub open spec fn name_like(name: Seq<char>, q: Seq<char>) -> bool {
    exists|i: int|
        0 <= i && i + q.len() <= name.len() && #[trigger] lower(name.subrange(i, i + q.len()))
            == lower(q)
}

/// One filter condition on a row.
pub enum Predicate {
    /// The row's name contains this text, case-insensitively.
    NameLike(String),
    /// The row's trash state (`trashed_at` set) equals this flag.
    TrashedIs(bool),
}

/// Whether a row satisfies one condition.
pub open spec fn pred_matches(p: Predicate, r: Row) -> bool {
    match p {
        Predicate::NameLike(q) => name_like(r.name@, q@),
        Predicate::TrashedIs(b) => (r.trashed_at is Some) == b,
    }
}

/// Whether a row satisfies every condition of a list.
pub open spec fn all_match(ps: Seq<Predicate>, r: Row) -> bool {
    forall|i: int| 0 <= i < ps.len() ==> pred_matches(ps[i], r)
}

/// A conjunction of filter conditions, built one condition at a time.
pub struct Where {
    pub predicates: Vec<Predicate>,
}

impl Where {
    /// The empty conjunction, which matches every row.
    pub fn new() -> (w: Where)
        ensures
            w.predicates@ == Seq::<Predicate>::empty(),
    {
        Where { predicates: Vec::new() }
    }

    /// Add one condition to the conjunction.
    pub fn and(&mut self, p: Predicate)
        ensures
            final(self).predicates@ == old(self).predicates@.push(p),
    {
        self.predicates.push(p);
    }

    /// Whether a row satisfies every condition added so far.
    pub fn matches(&self, r: &Row) -> (b: bool)
        ensures
            b == all_match(self.predicates@, *r),
    {
        let n = self.predicates.len();
        let mut i: usize = 0;
        while i < n
            invariant
                0 <= i <= n,
                n == self.predicates@.len(),
                forall|k: int| 0 <= k < i ==> pred_matches(self.predicates@[k], *r),
            decreases n - i,
        {
            let holds = match &self.predicates[i] {
                Predicate::NameLike(q) => str_like(r.name.as_str(), q.as_str()),
                Predicate::TrashedIs(b) => r.trashed_at.is_some() == *b,
            };
            if !holds {
                return false;
            }
            i = i + 1;
        }
        true
    }
}

/// Runtime evaluation of `lower_char`.
fn fold_char(c: char) -> (r: char)
    ensures
        r == lower_char(c),
{
    let x = c as u32;
    if 65 <= x && x <= 90 {
        ((x + 32) as u8) as char
    } else {
        c
    }
}

/// Whether the query matches at one position of the name.
fn match_at(name: &str, q: &str, i: usize) -> (b: bool)
    requires
        i + q@.len() <= name@.len(),
        name@.len() <= usize::MAX,
    ensures
        b == (lower(name@.subrange(i as int, i + q@.len())) == lower(q@)),
{
    let m = q.unicode_len();
    let ghost sub = name@.subrange(i as int, i + q@.len());
    let mut j: usize = 0;
    while j < m
        invariant
            0 <= j <= m,
            m == q@.len(),
            i + m <= name@.len(),
            name@.len() <= usize::MAX,
            sub == name@.subrange(i as int, i + q@.len()),
            forall|k: int| 0 <= k < j ==> lower_char(sub[k]) == lower_char(q@[k]),
        decreases m - j,
    {
        let a = fold_char(name.get_char(i + j));
        let b = fold_char(q.get_char(j));
        proof {
            assert(sub[j as int] == name@[i + j]);
        }
        if a != b {
            proof {
                assert(lower(sub)[j as int] != lower(q@)[j as int]);
            }
            return false;
        }
        j = j + 1;
    }
    proof {
        assert(lower(sub) =~= lower(q@));
    }
    true
}

/// Runtime evaluation of `name_like`.
pub fn str_like(name: &str, q: &str) -> (b: bool)
    ensures
        b == name_like(name@, q@),
{
    let n = name.unicode_len();
    let m = q.unicode_len();
    if m > n {
        return false;
    }
    if m == 0 {
        proof {
            assert(lower(name@.subrange(0, 0 + q@.len() as int)) =~= lower(q@));
        }
        return true;
    }
    let mut i: usize = 0;
    while i <= n - m
        invariant
            0 <= i <= n - m + 1,
            1 <= m <= n,
            n == name@.len(),
            m == q@.len(),
            forall|k: int|
                0 <= k < i ==> #[trigger] lower(name@.subrange(k, k + q@.len())) != lower(q@),
        decreases n - i,
    {
        if match_at(name, q, i) {
            return true;
        }
        i = i + 1;
    }
    false
}

} // verus!
