//! Walking the queries of a migration in one direction.

use vstd::prelude::*;

use super::Direction;
use crate::migrations::{Change, ChangeSet, Migration};

verus! {

/// The change of a change set that runs in direction `d`, if it has one.
pub open spec fn directed(cs: ChangeSet, d: Direction) -> Option<Change> {
    match d {
        Direction::Up => Some(cs.up),
        Direction::Down => cs.down,
    }
}

/// The text of each query in `qs`.
pub open spec fn texts(qs: Seq<String>) -> Seq<Seq<char>> {
    qs.map_values(|q: String| q@)
}

/// The queries of the change sets from index `i` on, in direction `d`,
/// in order, up to (not including) the first change that is a SQL file.
pub open spec fn queries_from(changes: Seq<ChangeSet>, d: Direction, i: int) -> Seq<Seq<char>>
    decreases changes.len() - i,
{
    if i < 0 || i >= changes.len() {
        seq![]
    } else {
        match directed(changes[i], d) {
            None => queries_from(changes, d, i + 1),
            Some(Change::Query { query }) => seq![query@] + queries_from(changes, d, i + 1),
            Some(Change::Queries { queries }) => texts(queries@) + queries_from(changes, d, i + 1),
            Some(Change::SqlFile { .. }) => seq![],
        }
    }
}

/// The index just past the first change set at or after `i` whose change in
/// direction `d` is a SQL file, or the number of change sets if none is.
pub open spec fn resume_index(changes: Seq<ChangeSet>, d: Direction, i: int) -> int
    decreases changes.len() - i,
{
    if i < 0 || i >= changes.len() {
        changes.len() as int
    } else {
        match directed(changes[i], d) {
            Some(Change::SqlFile { .. }) => i + 1,
            _ => resume_index(changes, d, i + 1),
        }
    }
}

/// All the queries that a migration runs in direction `d`, in order, up to
/// the first SQL file.
pub open spec fn migration_queries(m: Migration, d: Direction) -> Seq<Seq<char>> {
    queries_from(m.changes@, d, 0)
}

/// Iterates over the queries of a migration in one direction.
///
/// A change set without a change in that direction is skipped; a change with
/// several queries yields each of them in turn. A change that is a SQL file
/// ends the walk with `None`; a later call resumes after it.
pub struct QueryIter<'a> {
    migration: &'a Migration,
    inner: Option<usize>,
    idx: usize,
    direction: Direction,
}

fn directed_change<'b>(cs: &'b ChangeSet, d: Direction) -> (r: Option<&'b Change>)
    ensures
        match directed(*cs, d) {
            Some(c) => r == Some(&c),
            None => r is None,
        },
{
    match d {
        Direction::Up => Some(&cs.up),
        Direction::Down => match &cs.down {
            Some(c) => Some(c),
            None => None,
        },
    }
}

impl<'a> QueryIter<'a> {
    /// The migration walked.
    pub closed spec fn source(self) -> Migration {
        *self.migration
    }

    /// The direction walked.
    pub closed spec fn direction(self) -> Direction {
        self.direction
    }

    /// The queries of the change with several queries that is being walked.
    closed spec fn inner_queries(self) -> Seq<String> {
        match directed(self.migration.changes@[self.idx - 1], self.direction) {
            Some(Change::Queries { queries }) => queries@,
            _ => seq![],
        }
    }

    /// The iterator's internal state is consistent.
    #[verifier::type_invariant]
    closed spec fn wf(self) -> bool {
        &&& self.idx <= self.migration.changes@.len()
        &&& self.inner matches Some(k) ==> {
            &&& 1 <= self.idx
            &&& directed(self.migration.changes@[self.idx - 1], self.direction) is Some
            &&& directed(self.migration.changes@[self.idx - 1], self.direction).unwrap() is Queries
            &&& k <= self.inner_queries().len()
        }
    }

    /// The queries that the next calls of `next` yield before the next `None`.
    pub closed spec fn pending(self) -> Seq<Seq<char>> {
        let rest = match self.inner {
            Some(k) => texts(self.inner_queries().skip(k as int)),
            None => seq![],
        };
        rest + queries_from(self.migration.changes@, self.direction, self.idx as int)
    }

    /// Where the walk goes on after the next `None`.
    pub closed spec fn resume_at(self) -> int {
        resume_index(self.migration.changes@, self.direction, self.idx as int)
    }

    /// Starts a walk over the queries of `migration` in `direction`.
    pub fn new(migration: &'a Migration, direction: Direction) -> (it: Self)
        ensures
            it.source() == *migration,
            it.direction() == direction,
            it.pending() == migration_queries(*migration, direction),
            it.resume_at() == resume_index(migration.changes@, direction, 0),
    {
        let it = Self { migration, idx: 0, inner: None, direction };
        assert(it.pending() =~= migration_queries(*migration, direction));
        it
    }

    /// The next query, or `None` where the walk reaches a SQL file or the end.
    pub fn next(&mut self) -> (r: Option<&'a String>)
        ensures
            final(self).source() == old(self).source(),
            final(self).direction() == old(self).direction(),
            old(self).pending().len() > 0 ==> {
                &&& r matches Some(q) && q@ == old(self).pending()[0]
                &&& final(self).pending() == old(self).pending().drop_first()
                &&& final(self).resume_at() == old(self).resume_at()
            },
            old(self).pending().len() == 0 ==> {
                &&& r is None
                &&& final(self).pending() == queries_from(
                    old(self).source().changes@,
                    old(self).direction(),
                    old(self).resume_at(),
                )
                &&& final(self).resume_at() == resume_index(
                    old(self).source().changes@,
                    old(self).direction(),
                    old(self).resume_at(),
                )
            },
    {
        proof {
            use_type_invariant(&*self);
        }
        let ghost changes = self.migration.changes@;
        let ghost d = self.direction;
        loop
            invariant
                self.wf(),
                self.migration == old(self).migration,
                self.direction == d,
                changes == self.migration.changes@,
                d == old(self).direction,
                self.pending() == old(self).pending(),
                self.resume_at() == old(self).resume_at(),
            decreases 2 * (changes.len() - self.idx) + (if self.inner is Some { 1int } else { 0int }),
        {
            match self.inner {
                Some(k) => {
                    let cs = &self.migration.changes[self.idx - 1];
                    match directed_change(cs, self.direction) {
                        Some(Change::Queries { queries }) => {
                            if k < queries.len() {
                                self.inner = Some(k + 1);
                                assert(texts(queries@.skip(k as int)) =~= seq![queries@[k as int]@] + texts(queries@.skip(k + 1)));
                                assert(self.pending() =~= old(self).pending().drop_first());
                                return Some(&queries[k]);
                            } else {
                                self.inner = None;
                                assert(texts(queries@.skip(k as int)) =~= seq![]);
                                assert(self.pending() =~= old(self).pending());
                            }
                        },
                        _ => {
                            assert(false);
                            return None;
                        },
                    }
                },
                None => {
                    if self.idx >= self.migration.changes.len() {
                        return None;
                    }
                    let i = self.idx;
                    let cs = &self.migration.changes[i];
                    self.idx = i + 1;
                    match directed_change(cs, self.direction) {
                        None => {
                            assert(self.pending() =~= old(self).pending());
                        },
                        Some(Change::Query { query }) => {
                            assert(self.pending() =~= old(self).pending().drop_first());
                            return Some(query);
                        },
                        Some(Change::Queries { queries }) => {
                            self.inner = Some(0);
                            assert(queries@.skip(0) =~= queries@);
                            assert(self.pending() =~= old(self).pending());
                        },
                        Some(Change::SqlFile { .. }) => {
                            return None;
                        },
                    }
                },
            }
        }
    }
    /// Collects, in order, the queries that `next` yields before its next `None`.
    pub fn collect_queries(self) -> (v: Vec<String>)
        ensures
            texts(v@) == self.pending(),
    {
        let ghost all = self.pending();
        let mut it = self;
        let mut v: Vec<String> = Vec::new();
        loop
            invariant_except_break
                texts(v@) + it.pending() == all,
            ensures
                texts(v@) == all,
            decreases it.pending().len(),
        {
            let ghost before = it.pending();
            let ghost v0 = v@;
            match it.next() {
                Some(q) => {
                    v.push(q.clone());
                    assert(texts(v@) =~= texts(v0).push(q@));
                    assert(texts(v@) + it.pending() =~= texts(v0) + before);
                },
                None => {
                    assert(texts(v@) + before == all);
                    assert(before =~= seq![]);
                    assert(texts(v@) + seq![] =~= texts(v@));
                    break;
                },
            }
        }
        v
    }
}

/// A walk that has reached the end stays there: past the last change set
/// nothing is pending, and the walk resumes at the end. So once `pending`
/// is empty and `resume_at` is the number of change sets, every further
/// `next` gives `None` and leaves it so.
pub proof fn lemma_walk_end_stays(changes: Seq<ChangeSet>, d: Direction)
    ensures
        queries_from(changes, d, changes.len() as int) == Seq::<Seq<char>>::empty(),
        resume_index(changes, d, changes.len() as int) == changes.len(),
{
}

/// The texts of the queries that change `c` runs: its query for a single
/// query, each of its queries in order for several, none for a SQL file or
/// no change.
pub open spec fn change_query_texts(c: Option<Change>) -> Seq<Seq<char>> {
    match c {
        Some(Change::Query { query }) => seq![query@],
        Some(Change::Queries { queries }) => queries@.map_values(|q: String| q@),
        _ => seq![],
    }
}

/// The change of change set `j` in direction `d` is a SQL file.
pub open spec fn is_sql_file_at(changes: Seq<ChangeSet>, d: Direction, j: int) -> bool {
    directed(changes[j], d) matches Some(Change::SqlFile { .. })
}

/// The walk from `i` is the concatenation of the query texts of change sets
/// `i` to `k`, when `k` is where it stops.
proof fn lemma_walk_from_is_concatenation(changes: Seq<ChangeSet>, d: Direction, i: int, k: int)
    requires
        0 <= i <= k <= changes.len(),
        forall|j: int| 0 <= j < k ==> !is_sql_file_at(changes, d, j),
        k == changes.len() || is_sql_file_at(changes, d, k),
    ensures
        queries_from(changes, d, i) == Seq::new(
            (k - i) as nat,
            |j: int| change_query_texts(directed(changes[i + j], d)),
        ).flatten(),
    decreases k - i,
{
    let parts = Seq::new((k - i) as nat, |j: int| change_query_texts(directed(changes[i + j], d)));
    if i == k {
        assert(parts =~= Seq::<Seq<Seq<char>>>::empty());
    } else {
        lemma_walk_from_is_concatenation(changes, d, i + 1, k);
        let rest = Seq::new((k - i - 1) as nat, |j: int| change_query_texts(directed(changes[i + 1 + j], d)));
        assert(parts.drop_first() =~= rest);
        assert(!is_sql_file_at(changes, d, i));
        match directed(changes[i], d) {
            None => {
                assert(parts.first() =~= Seq::<Seq<char>>::empty());
                assert(parts.first() + rest.flatten() =~= rest.flatten());
            },
            Some(Change::Query { query }) => {},
            Some(Change::Queries { queries }) => {
                assert(parts.first() =~= texts(queries@));
            },
            Some(Change::SqlFile { .. }) => {},
        }
    }
}

/// The queries walked in direction `d` are, change set by change set in
/// order, the queries of each one's change in that direction (one for a
/// single query, each of the list for several, none when it has none),
/// concatenated up to the first change that is a SQL file: when no change
/// before index `k` is a SQL file, and `k` is the number of change sets or
/// the change at `k` is one, the walk is the concatenation of the query
/// texts of the first `k` change sets.
pub proof fn lemma_walk_is_concatenation(m: Migration, d: Direction, k: int)
    requires
        0 <= k <= m.changes@.len(),
        forall|j: int| 0 <= j < k ==> !is_sql_file_at(m.changes@, d, j),
        k == m.changes@.len() || is_sql_file_at(m.changes@, d, k),
    ensures
        migration_queries(m, d) == Seq::new(
            k as nat,
            |j: int| change_query_texts(directed(m.changes@[j], d)),
        ).flatten(),
{
    lemma_walk_from_is_concatenation(m.changes@, d, 0, k);
    assert(Seq::new((k - 0) as nat, |j: int| change_query_texts(directed(m.changes@[0 + j], d))) =~= Seq::new(
        k as nat,
        |j: int| change_query_texts(directed(m.changes@[j], d)),
    ));
}

/// Every query of every change set before the first SQL file is walked, in
/// its place: the queries of change set `j`'s change in direction `d` stand
/// in the walk right after those of the change sets before it.
pub proof fn lemma_walk_contains_each_change(m: Migration, d: Direction, k: int, j: int)
    requires
        0 <= j < k <= m.changes@.len(),
        forall|i: int| 0 <= i < k ==> !is_sql_file_at(m.changes@, d, i),
        k == m.changes@.len() || is_sql_file_at(m.changes@, d, k),
    ensures
        ({
            let before = Seq::new(j as nat, |i: int| change_query_texts(directed(m.changes@[i], d))).flatten();
            let own = change_query_texts(directed(m.changes@[j], d));
            migration_queries(m, d).subrange(before.len() as int, (before.len() + own.len()) as int) == own
        }),
{
    lemma_walk_is_concatenation(m, d, k);
    let all = Seq::new(k as nat, |i: int| change_query_texts(directed(m.changes@[i], d)));
    let front = Seq::new(j as nat, |i: int| change_query_texts(directed(m.changes@[i], d)));
    let back = Seq::new((k - j - 1) as nat, |i: int| change_query_texts(directed(m.changes@[j + 1 + i], d)));
    let own = change_query_texts(directed(m.changes@[j], d));
    assert(all =~= front.push(own) + back);
    vstd::seq_lib::lemma_flatten_concat(front.push(own), back);
    front.lemma_flatten_push(own);
    let before = front.flatten();
    assert((before + own + back.flatten()).subrange(before.len() as int, (before.len() + own.len()) as int) =~= own);
}

} // verus!
