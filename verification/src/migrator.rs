//! Running migrations read from disk, in id order, through an executor.

use vstd::prelude::*;

use crate::executor::{lemma_after, migrate_outcome, rollback_outcome, Backend, BackendCall, Error, Executor};
use crate::migrations::Migration;

verus! {

/// The ids of `s` never decrease.
pub open spec fn sorted_by_id(s: Seq<Migration>) -> bool {
    forall|i: int, j: int| 0 <= i <= j < s.len() ==> s[i].id <= s[j].id
}

/// The migrations of `s` with id `id`, in their order in `s`.
pub open spec fn with_id(s: Seq<Migration>, id: i64) -> Seq<Migration>
    decreases s.len(),
{
    if s.len() == 0 {
        seq![]
    } else if s.last().id == id {
        with_id(s.drop_last(), id).push(s.last())
    } else {
        with_id(s.drop_last(), id)
    }
}

/// `r` is `s` sorted by id, where migrations of equal id keep their order:
/// the ids of `r` never decrease, and for every id, the migrations of `r`
/// with that id are those of `s`, in the same order.
pub open spec fn stable_sort_of(r: Seq<Migration>, s: Seq<Migration>) -> bool {
    &&& r.len() == s.len()
    &&& sorted_by_id(r)
    &&& forall|id: i64| #[trigger] with_id(r, id) == with_id(s, id)
}

/// Picking the migrations of one id distributes over concatenation.
pub proof fn lemma_with_id_concat(a: Seq<Migration>, b: Seq<Migration>, id: i64)
    ensures
        with_id(a + b, id) == with_id(a, id) + with_id(b, id),
    decreases b.len(),
{
    if b.len() == 0 {
        assert(a + b =~= a);
        assert(with_id(b, id) =~= seq![]);
        assert(with_id(a, id) + with_id(b, id) =~= with_id(a, id));
    } else {
        lemma_with_id_concat(a, b.drop_last(), id);
        assert((a + b).drop_last() =~= a + b.drop_last());
        assert((a + b).last() == b.last());
        if b.last().id == id {
            assert(with_id(a, id) + with_id(b, id) =~= (with_id(a, id) + with_id(b.drop_last(), id)).push(
                b.last(),
            ));
        }
    }
}

/// A sequence with no migration of id `id` has none to pick.
pub proof fn lemma_with_id_absent(s: Seq<Migration>, id: i64)
    requires
        forall|i: int| 0 <= i < s.len() ==> (#[trigger] s[i]).id != id,
    ensures
        with_id(s, id) == Seq::<Migration>::empty(),
    decreases s.len(),
{
    if s.len() > 0 {
        assert(s.last() == s[s.len() - 1]);
        lemma_with_id_absent(s.drop_last(), id);
    }
}

/// Picking the migrations of id `id` keeps every copy of those, and no other.
pub proof fn lemma_with_id_count(s: Seq<Migration>, id: i64, x: Migration)
    ensures
        with_id(s, id).to_multiset().count(x) == if x.id == id {
            s.to_multiset().count(x)
        } else {
            0
        },
    decreases s.len(),
{
    broadcast use vstd::seq_lib::group_seq_properties;

    if s.len() == 0 {
        assert(with_id(s, id) =~= s);
    } else {
        lemma_with_id_count(s.drop_last(), id, x);
        assert(s =~= s.drop_last().push(s.last()));
    }
}

/// Sorting keeps the migrations: a stable sort of `s` is a permutation of
/// `s`.
pub proof fn lemma_sort_is_permutation(r: Seq<Migration>, s: Seq<Migration>)
    requires
        stable_sort_of(r, s),
    ensures
        r.to_multiset() =~= s.to_multiset(),
{
    assert forall|x: Migration| r.to_multiset().count(x) == s.to_multiset().count(x) by {
        lemma_with_id_count(r, x.id, x);
        lemma_with_id_count(s, x.id, x);
        assert(with_id(r, x.id) == with_id(s, x.id));
    }
}

/// `Migrator::migrate(read_disk)` made the backend calls `calls` and ended
/// with `r`: it ran the query `creation` that makes sure the changelog table
/// exists (a failure ends it with the backend's message); then it read the
/// migrations with `read_disk` and applied them, sorted by id, as
/// `migrate_outcome` says.
pub open spec fn migrate_from_disk_outcome<F: FnOnce() -> Vec<Migration>>(
    read_disk: F,
    creation: Seq<char>,
    calls: Seq<BackendCall>,
    r: Result<(), Error>,
) -> bool {
    &&& calls.len() >= 1
    &&& calls[0] is Execute
    &&& calls[0]->query == creation
    &&& match calls[0]->Execute_result {
        Err(message) => calls.len() == 1 && r == Err::<(), Error>(Error::Backend { message }),
        Ok(()) => exists|disk: Vec<Migration>, sorted: Seq<Migration>|
            #![trigger call_ensures(read_disk, (), disk), migrate_outcome(sorted, calls.drop_first(), r)]
            call_ensures(read_disk, (), disk) && stable_sort_of(sorted, disk@) && migrate_outcome(
                sorted,
                calls.drop_first(),
                r,
            ),
    }
}

/// `Migrator::rollback(read_disk)` made the backend calls `calls` and ended
/// with `r`: it ran the query `creation` that makes sure the changelog table
/// exists (a failure ends it with the backend's message); then it read the
/// migrations with `read_disk` and rolled back against them, sorted by id,
/// as `rollback_outcome` says.
pub open spec fn rollback_from_disk_outcome<F: FnOnce() -> Vec<Migration>>(
    read_disk: F,
    creation: Seq<char>,
    calls: Seq<BackendCall>,
    r: Result<(), Error>,
) -> bool {
    &&& calls.len() >= 1
    &&& calls[0] is Execute
    &&& calls[0]->query == creation
    &&& match calls[0]->Execute_result {
        Err(message) => calls.len() == 1 && r == Err::<(), Error>(Error::Backend { message }),
        Ok(()) => exists|disk: Vec<Migration>, sorted: Seq<Migration>|
            #![trigger call_ensures(read_disk, (), disk), rollback_outcome(sorted, calls.drop_first(), r)]
            call_ensures(read_disk, (), disk) && stable_sort_of(sorted, disk@) && rollback_outcome(
                sorted,
                calls.drop_first(),
                r,
            ),
    }
}

/// A sorted sequence is a stable sort of itself.
proof fn lemma_sorted_sorts_to_itself(s: Seq<Migration>)
    requires
        sorted_by_id(s),
    ensures
        stable_sort_of(s, s),
{
}

/// There is one stable sort by id: two stable sorts of the same migrations
/// are equal.
pub proof fn lemma_stable_sort_unique(r1: Seq<Migration>, r2: Seq<Migration>, s: Seq<Migration>)
    requires
        stable_sort_of(r1, s),
        stable_sort_of(r2, s),
    ensures
        r1 == r2,
    decreases s.len(),
{
    broadcast use vstd::seq_lib::group_seq_properties;

    if s.len() == 0 {
        assert(r1 =~= r2);
    } else {
        let a = r1.last();
        let b = r2.last();
        lemma_sort_is_permutation(r1, s);
        lemma_sort_is_permutation(r2, s);
        assert(r2.to_multiset().count(a) > 0) by {
            assert(r1.contains(a)) by {
                assert(r1[r1.len() - 1] == a);
            }
        }
        assert(r1.to_multiset().count(b) > 0) by {
            assert(r2.contains(b)) by {
                assert(r2[r2.len() - 1] == b);
            }
        }
        assert(r2.contains(a));
        assert(r1.contains(b));
        let ia = choose|i: int| 0 <= i < r2.len() && r2[i] == a;
        let ib = choose|i: int| 0 <= i < r1.len() && r1[i] == b;
        assert(r1[ib].id <= r1[r1.len() - 1].id);
        assert(r2[ia].id <= r2[r2.len() - 1].id);
        let m = a.id;
        assert(b.id == m);
        assert(with_id(r1, m) == with_id(s, m));
        assert(with_id(r2, m) == with_id(s, m));
        assert(with_id(r1, m).last() == a);
        assert(with_id(r2, m).last() == b);
        let t1 = r1.drop_last();
        let t2 = r2.drop_last();
        assert(sorted_by_id(t1));
        assert(sorted_by_id(t2));
        lemma_sorted_sorts_to_itself(t1);
        assert forall|id: i64| #[trigger] with_id(t2, id) == with_id(t1, id) by {
            assert(with_id(r1, id) == with_id(s, id));
            assert(with_id(r2, id) == with_id(s, id));
            if id == m {
                assert(with_id(t1, id) == with_id(r1, id).drop_last());
                assert(with_id(t2, id) == with_id(r2, id).drop_last());
            }
        }
        lemma_stable_sort_unique(t1, t2, t1);
        assert(r1 =~= t1.push(a));
        assert(r2 =~= t2.push(b));
    }
}

/// Sorting migrations that are already in id order leaves them as they are.
pub proof fn lemma_sort_of_sorted_is_identity(r: Seq<Migration>, s: Seq<Migration>)
    requires
        stable_sort_of(r, s),
        sorted_by_id(s),
    ensures
        r == s,
{
    lemma_sorted_sorts_to_itself(s);
    lemma_stable_sort_unique(r, s, s);
}

/// Runs migrations read from disk through an executor.
pub struct Migrator<T: Backend> {
    executor: Executor<T>,
}

impl<T: Backend> Migrator<T> {
    /// The executor.
    pub closed spec fn executor(self) -> Executor<T> {
        self.executor
    }

    /// A migrator over `executor`.
    pub fn new(executor: Executor<T>) -> (m: Self)
        ensures
            m.executor() == executor,
    {
        Self { executor }
    }

    /// Sorts `migrations` by id; migrations of equal id keep their order.
    pub fn sort_by_order(migrations: Vec<Migration>) -> (sorted: Vec<Migration>)
        ensures
            stable_sort_of(sorted@, migrations@),
    {
        let ghost input = migrations@;
        let mut sorted: Vec<Migration> = Vec::new();
        for m in it: migrations
            invariant
                it.seq() == input,
                stable_sort_of(sorted@, input.take(it.index() as int)),
        {
            let ghost k = it.index() as int;
            assert(input[k] == m);
            let mut pos = sorted.len();
            while pos > 0 && sorted[pos - 1].id > m.id
                invariant
                    pos <= sorted@.len(),
                    forall|j: int| pos <= j < sorted@.len() ==> (#[trigger] sorted@[j]).id > m.id,
                decreases pos,
            {
                pos = pos - 1;
            }
            let ghost old_sorted = sorted@;
            assert(forall|j: int| 0 <= j < pos ==> (#[trigger] old_sorted[j]).id <= m.id) by {
                if pos > 0 {
                    assert(old_sorted[pos - 1].id <= m.id);
                }
            }
            sorted.insert(pos, m);
            proof {
                let front = old_sorted.take(pos as int);
                let back = old_sorted.skip(pos as int);
                assert(old_sorted =~= front + back);
                assert(sorted@ =~= front + seq![m] + back);
                assert(input.take(k + 1) =~= input.take(k).push(m));
                assert forall|id: i64| #[trigger] with_id(sorted@, id) == with_id(input.take(k + 1), id) by {
                    lemma_with_id_concat(front, back, id);
                    lemma_with_id_concat(front + seq![m], back, id);
                    lemma_with_id_concat(front, seq![m], id);
                    assert(seq![m].drop_last() =~= Seq::<Migration>::empty());
                    assert(with_id(old_sorted, id) == with_id(input.take(k), id));
                    let single = seq![m];
                    assert(single.drop_last() =~= Seq::<Migration>::empty());
                    assert(single.last() == m);
                    assert(with_id(Seq::<Migration>::empty(), id) =~= Seq::<Migration>::empty());
                    assert(input.take(k + 1).drop_last() =~= input.take(k));
                    assert(input.take(k + 1).last() == m);
                    if id == m.id {
                        lemma_with_id_absent(back, id);
                        assert(with_id(single, id) =~= seq![m]);
                        assert(with_id(input.take(k + 1), id) == with_id(input.take(k), id).push(m));
                        assert(with_id(sorted@, id) =~= with_id(front, id) + seq![m]);
                        assert(with_id(old_sorted, id) =~= with_id(front, id));
                    } else {
                        assert(with_id(single, id) =~= Seq::<Migration>::empty());
                        assert(with_id(input.take(k + 1), id) == with_id(input.take(k), id));
                        assert(with_id(sorted@, id) =~= with_id(front, id) + with_id(back, id));
                    }
                }
            }
        }
        assert(input.take(input.len() as int) =~= input);
        sorted
    }
    /// Makes sure the changelog table exists; then reads the migrations
    /// with `read_disk` and applies, in id order, those that the changelog
    /// does not record.
    pub fn migrate<F: FnOnce() -> Vec<Migration>>(&mut self, read_disk: F) -> (r: Result<(), Error>)
        requires
            call_requires(read_disk, ()),
        ensures
            old(self).executor().backend().keeps_log() ==> {
                &&& final(self).executor().backend().keeps_log()
                &&& final(self).executor().backend().log().len() > old(
                    self,
                ).executor().backend().log().len()
                &&& final(self).executor().backend().log().take(
                    old(self).executor().backend().log().len() as int,
                ) == old(self).executor().backend().log()
                &&& migrate_from_disk_outcome(
                    read_disk,
                    T::CHANGELOG_TABLE_CREATION_QUERY@,
                    final(self).executor().backend().log().skip(
                        old(self).executor().backend().log().len() as int,
                    ),
                    r,
                )
            },
    {
        let ghost keeps = self.executor.backend().keeps_log();
        let ghost c0 = self.executor.backend().log();
        let init = self.executor.init();
        let ghost c1 = self.executor.backend().log();
        if let Err(e) = init {
            proof {
                if keeps {
                    assert(c1 =~= c0.push(c1[c0.len() as int]) + seq![]);
                    lemma_after(c0, c1, c1[c0.len() as int], seq![]);
                }
            }
            return Err(e);
        }
        let disk = read_disk();
        let ghost disk_vec = disk;
        let sorted = Self::sort_by_order(disk);
        let ghost sorted_view = sorted@;
        let r = self.executor.migrate(sorted);
        proof {
            if keeps {
                let calls = self.executor.backend().log();
                let tail = calls.skip(c1.len() as int);
                assert(calls =~= calls.take(c1.len() as int) + tail);
                assert(c1 =~= c0.push(c1[c0.len() as int]));
                assert(calls =~= c0.push(c1[c0.len() as int]) + tail);
                lemma_after(c0, calls, c1[c0.len() as int], tail);
                assert(migrate_outcome(sorted_view, tail, r));
            }
        }
        r
    }

    /// Makes sure the changelog table exists; then reads the migrations
    /// with `read_disk` and rolls back the last applied one, found among
    /// them.
    pub fn rollback<F: FnOnce() -> Vec<Migration>>(&mut self, read_disk: F) -> (r: Result<(), Error>)
        requires
            call_requires(read_disk, ()),
        ensures
            old(self).executor().backend().keeps_log() ==> {
                &&& final(self).executor().backend().keeps_log()
                &&& final(self).executor().backend().log().len() > old(
                    self,
                ).executor().backend().log().len()
                &&& final(self).executor().backend().log().take(
                    old(self).executor().backend().log().len() as int,
                ) == old(self).executor().backend().log()
                &&& rollback_from_disk_outcome(
                    read_disk,
                    T::CHANGELOG_TABLE_CREATION_QUERY@,
                    final(self).executor().backend().log().skip(
                        old(self).executor().backend().log().len() as int,
                    ),
                    r,
                )
            },
    {
        let ghost keeps = self.executor.backend().keeps_log();
        let ghost c0 = self.executor.backend().log();
        let init = self.executor.init();
        let ghost c1 = self.executor.backend().log();
        if let Err(e) = init {
            proof {
                if keeps {
                    assert(c1 =~= c0.push(c1[c0.len() as int]) + seq![]);
                    lemma_after(c0, c1, c1[c0.len() as int], seq![]);
                }
            }
            return Err(e);
        }
        let disk = read_disk();
        let ghost disk_vec = disk;
        let sorted = Self::sort_by_order(disk);
        let ghost sorted_view = sorted@;
        let r = self.executor.rollback(sorted);
        proof {
            if keeps {
                let calls = self.executor.backend().log();
                let tail = calls.skip(c1.len() as int);
                assert(calls =~= calls.take(c1.len() as int) + tail);
                assert(c1 =~= c0.push(c1[c0.len() as int]));
                assert(calls =~= c0.push(c1[c0.len() as int]) + tail);
                lemma_after(c0, calls, c1[c0.len() as int], tail);
                assert(rollback_outcome(sorted_view, tail, r));
            }
        }
        r
    }
}

} // verus!
