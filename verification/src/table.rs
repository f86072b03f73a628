//! Tables of rows under distinct keys, and the choice of the earliest of their rows.
use vstd::prelude::*;

verus! {

/// A value that can stand as the key of a table.
pub trait TableKey: View + Sized {
    /// Whether two keys have the same view.
    fn same_key(&self, other: &Self) -> (r: bool)
        ensures
            r == (self@ == other@),
    ;
}

impl TableKey for String {
    fn same_key(&self, other: &Self) -> (r: bool) {
        *self == *other
    }
}

impl TableKey for i64 {
    fn same_key(&self, other: &Self) -> (r: bool) {
        *self == *other
    }
}

impl TableKey for (u32, String) {
    fn same_key(&self, other: &Self) -> (r: bool) {
        self.0 == other.0 && self.1 == other.1
    }
}

/// Rows of type `R`, at most one for each key.
pub struct Table<K: TableKey, R: View> {
    rows: Vec<(K, R)>,
}

/// The keys of `rows` in order.
closed spec fn keys_of<K: TableKey, R: View>(rows: Seq<(K, R)>) -> Seq<K::V> {
    rows.map_values(|e: (K, R)| e.0@)
}

/// The map from the keys of `rows` to the rows under them.
closed spec fn map_of<K: TableKey, R: View>(rows: Seq<(K, R)>) -> Map<K::V, R::V> {
    Map::new(
        |k: K::V| keys_of(rows).contains(k),
        |k: K::V| rows[keys_of(rows).index_of(k)].1@,
    )
}

impl<K: TableKey, R: View> View for Table<K, R> {
    type V = Map<K::V, R::V>;

    closed spec fn view(&self) -> Map<K::V, R::V> {
        map_of(self.rows@)
    }
}

impl<K: TableKey, R: View> Table<K, R> {
    #[verifier::type_invariant]
    closed spec fn distinct(self) -> bool {
        keys_of(self.rows@).no_duplicates()
    }

    /// The keys in the order in which the table holds them.
    pub closed spec fn keys(self) -> Seq<K::V> {
        keys_of(self.rows@)
    }

    /// The table without rows.
    pub fn new() -> (t: Self)
        ensures
            t@ == Map::<K::V, R::V>::empty(),
    {
        let t = Table { rows: Vec::new() };
        assert(t@ =~= Map::<K::V, R::V>::empty());
        t
    }

    /// The number of rows. The keys are those of the view, each once.
    pub fn len(&self) -> (n: usize)
        ensures
            n == self.keys().len(),
            self.keys().no_duplicates(),
            forall|k: K::V| #[trigger] self@.contains_key(k) <==> self.keys().contains(k),
            self@.dom() == self.keys().to_set(),
            self@.dom().finite(),
            self@.dom().len() == n,
    {
        proof {
            use_type_invariant(self);
            self.keys().unique_seq_to_set();
            assert(self@.dom() =~= self.keys().to_set());
        }
        self.rows.len()
    }

    /// The key at position `i`.
    pub fn key_at(&self, i: usize) -> (k: &K)
        requires
            i < self.keys().len(),
        ensures
            k@ == self.keys()[i as int],
    {
        &self.rows[i].0
    }

    /// The row at position `i`.
    pub fn row_at(&self, i: usize) -> (r: &R)
        requires
            i < self.keys().len(),
        ensures
            self@.contains_key(self.keys()[i as int]),
            r@ == self@[self.keys()[i as int]],
    {
        proof {
            use_type_invariant(self);
            lemma_row_at(self.rows@, i as int);
        }
        &self.rows[i].1
    }

    fn find(&self, key: &K) -> (r: Option<usize>)
        ensures
            match r {
                Some(i) => i < self.keys().len() && self.keys()[i as int] == key@,
                None => !self@.contains_key(key@),
            },
    {
        let mut i: usize = 0;
        while i < self.rows.len()
            invariant
                i <= self.rows@.len(),
                forall|j: int| 0 <= j < i ==> self.keys()[j] != key@,
            decreases self.rows@.len() - i,
        {
            if self.rows[i].0.same_key(key) {
                return Some(i);
            }
            i += 1;
        }
        assert(!self.keys().contains(key@));
        None
    }

    /// The row under `key`.
    pub fn get(&self, key: &K) -> (r: Option<&R>)
        ensures
            match r {
                Some(row) => self@.contains_key(key@) && row@ == self@[key@],
                None => !self@.contains_key(key@),
            },
    {
        match self.find(key) {
            Some(i) => Some(self.row_at(i)),
            None => None,
        }
    }

    /// Puts `row` under `key`, in the place of a row that stood there.
    pub fn put(&mut self, key: K, row: R)
        ensures
            final(self)@ == old(self)@.insert(key@, row@),
    {
        let found = self.find(&key);
        proof {
            use_type_invariant(&*self);
        }
        let ghost before = self.rows@;
        let mut rows: Vec<(K, R)> = Vec::new();
        std::mem::swap(&mut rows, &mut self.rows);
        match found {
            Some(i) => {
                rows.set(i, (key, row));
                proof {
                    lemma_set(before, i as int, (key, row));
                }
            },
            None => {
                rows.push((key, row));
                proof {
                    lemma_push(before, (key, row));
                }
            },
        }
        self.rows = rows;
    }

    /// Takes the row at position `i` out. The other rows keep their order.
    pub fn remove_at(&mut self, i: usize) -> (row: R)
        requires
            i < old(self).keys().len(),
        ensures
            row@ == old(self)@[old(self).keys()[i as int]],
            final(self)@ == old(self)@.remove(old(self).keys()[i as int]),
            final(self).keys() == old(self).keys().remove(i as int),
    {
        proof {
            use_type_invariant(&*self);
        }
        let ghost before = self.rows@;
        let mut rows: Vec<(K, R)> = Vec::new();
        std::mem::swap(&mut rows, &mut self.rows);
        let entry = rows.remove(i);
        proof {
            lemma_remove(before, i as int);
            lemma_row_at(before, i as int);
        }
        self.rows = rows;
        entry.1
    }

    /// Takes the row under `key` out, if there is one.
    pub fn remove(&mut self, key: &K) -> (row: Option<R>)
        ensures
            match row {
                Some(r) => old(self)@.contains_key(key@) && r@ == old(self)@[key@],
                None => !old(self)@.contains_key(key@),
            },
            final(self)@ == old(self)@.remove(key@),
    {
        match self.find(key) {
            Some(i) => {
                proof {
                    use_type_invariant(&*self);
                    lemma_row_at(self.rows@, i as int);
                }
                Some(self.remove_at(i))
            },
            None => {
                assert(self@ =~= self@.remove(key@));
                None
            },
        }
    }
}

proof fn lemma_row_at<K: TableKey, R: View>(rows: Seq<(K, R)>, i: int)
    requires
        keys_of(rows).no_duplicates(),
        0 <= i < rows.len(),
    ensures
        map_of(rows).contains_key(keys_of(rows)[i]),
        map_of(rows)[keys_of(rows)[i]] == rows[i].1@,
{
    let k = keys_of(rows)[i];
    assert(keys_of(rows).contains(k));
    let j = keys_of(rows).index_of(k);
    assert(keys_of(rows)[j] == k);
}

proof fn lemma_set<K: TableKey, R: View>(rows: Seq<(K, R)>, i: int, entry: (K, R))
    requires
        keys_of(rows).no_duplicates(),
        0 <= i < rows.len(),
        keys_of(rows)[i] == entry.0@,
    ensures
        keys_of(rows.update(i, entry)) == keys_of(rows),
        map_of(rows.update(i, entry)) == map_of(rows).insert(entry.0@, entry.1@),
{
    let after = rows.update(i, entry);
    assert(keys_of(after) =~= keys_of(rows));
    assert forall|k: K::V| keys_of(rows).contains(k) implies map_of(after)[k] == map_of(
        rows,
    ).insert(entry.0@, entry.1@)[k] by {
        let j = keys_of(rows).index_of(k);
        assert(keys_of(rows)[j] == k);
    }
    assert(keys_of(rows).contains(entry.0@));
    assert(map_of(after) =~= map_of(rows).insert(entry.0@, entry.1@));
}

proof fn lemma_push<K: TableKey, R: View>(rows: Seq<(K, R)>, entry: (K, R))
    requires
        keys_of(rows).no_duplicates(),
        !map_of(rows).contains_key(entry.0@),
    ensures
        keys_of(rows.push(entry)).no_duplicates(),
        map_of(rows.push(entry)) == map_of(rows).insert(entry.0@, entry.1@),
{
    let after = rows.push(entry);
    let ks = keys_of(rows);
    assert(keys_of(after) =~= ks.push(entry.0@));
    assert(!ks.contains(entry.0@));
    assert forall|k: K::V| keys_of(after).contains(k) <==> (ks.contains(k) || k == entry.0@) by {
        assert(keys_of(after)[rows.len() as int] == entry.0@);
        if ks.contains(k) {
            let j = ks.index_of(k);
            assert(keys_of(after)[j] == k);
        }
    }
    assert forall|k: K::V| #[trigger] keys_of(after).contains(k) implies map_of(after)[k] == map_of(
        rows,
    ).insert(entry.0@, entry.1@)[k] by {
        let j = keys_of(after).index_of(k);
        assert(keys_of(after)[j] == k);
        if k != entry.0@ {
            let m = ks.index_of(k);
            assert(ks[m] == k);
            assert(keys_of(after)[m] == k);
        }
    }
    assert(map_of(after) =~= map_of(rows).insert(entry.0@, entry.1@));
}

proof fn lemma_remove<K: TableKey, R: View>(rows: Seq<(K, R)>, i: int)
    requires
        keys_of(rows).no_duplicates(),
        0 <= i < rows.len(),
    ensures
        keys_of(rows.remove(i)) == keys_of(rows).remove(i),
        keys_of(rows.remove(i)).no_duplicates(),
        map_of(rows.remove(i)) == map_of(rows).remove(keys_of(rows)[i]),
{
    let after = rows.remove(i);
    let ks = keys_of(rows);
    let gone = ks[i];
    assert(keys_of(after) =~= ks.remove(i));
    assert forall|k: K::V| keys_of(after).contains(k) <==> (ks.contains(k) && k != gone) by {
        if keys_of(after).contains(k) {
            let j = keys_of(after).index_of(k);
            assert(keys_of(after)[j] == k);
            let m = if j < i {
                j
            } else {
                j + 1
            };
            assert(ks[m] == k);
        }
        if ks.contains(k) && k != gone {
            let m = ks.index_of(k);
            assert(ks[m] == k);
            let j = if m < i {
                m
            } else {
                m - 1
            };
            assert(keys_of(after)[j] == k);
        }
    }
    assert forall|k: K::V| #[trigger] keys_of(after).contains(k) implies map_of(after)[k] == map_of(
        rows,
    )[k] by {
        let j = keys_of(after).index_of(k);
        assert(keys_of(after)[j] == k);
        let m = ks.index_of(k);
        assert(ks[m] == k);
        let j2 = if j < i {
            j
        } else {
            j + 1
        };
        assert(ks[j2] == k);
    }
    assert(map_of(after) =~= map_of(rows).remove(gone));
}

/// `picked` are positions of entries of `ranks` that are present: the `limit` earliest, earliest
/// first, or all of them where there are no more. Which of several entries of equal rank is picked
/// is left open.
pub open spec fn picks_earliest(ranks: Seq<Option<int>>, picked: Seq<int>, limit: nat) -> bool {
    &&& picked.len() <= limit
    &&& picked.no_duplicates()
    &&& forall|p: int|
        0 <= p < picked.len() ==> 0 <= #[trigger] picked[p] < ranks.len() && ranks[picked[p]] is Some
    &&& forall|p: int, q: int|
        0 <= p < q < picked.len() ==> ranks[#[trigger] picked[p]]->0 <= ranks[#[trigger] picked[q]]->0
    &&& forall|j: int, p: int|
        #![trigger ranks[j], picked[p]]
        0 <= j < ranks.len() && ranks[j] is Some && !picked.contains(j) && 0 <= p < picked.len()
            ==> ranks[picked[p]]->0 <= ranks[j]->0
    &&& picked.len() < limit ==> forall|j: int|
        0 <= j < ranks.len() && (#[trigger] ranks[j]) is Some ==> picked.contains(j)
}

pub open spec fn rank_values(ranks: Seq<Option<i128>>) -> Seq<Option<int>> {
    ranks.map_values(
        |r: Option<i128>|
            match r {
                Some(n) => Some(n as int),
                None => None::<int>,
            },
    )
}

pub open spec fn positions(picked: Seq<usize>) -> Seq<int> {
    picked.map_values(|i: usize| i as int)
}

fn contains_position(list: &Vec<usize>, i: usize) -> (r: bool)
    ensures
        r == positions(list@).contains(i as int),
{
    let mut k: usize = 0;
    while k < list.len()
        invariant
            k <= list@.len(),
            forall|j: int| 0 <= j < k ==> positions(list@)[j] != i as int,
        decreases list@.len() - k,
    {
        if list[k] == i {
            assert(positions(list@)[k as int] == i as int);
            return true;
        }
        k += 1;
    }
    false
}

/// The position of the lowest rank that is present and not taken yet.
fn earliest_left(ranks: &Vec<Option<i128>>, taken: &Vec<usize>) -> (r: Option<usize>)
    ensures
        match r {
            Some(b) => {
                &&& b < ranks@.len()
                &&& ranks@[b as int] is Some
                &&& !positions(taken@).contains(b as int)
                &&& forall|j: int|
                    0 <= j < ranks@.len() && (#[trigger] ranks@[j]) is Some && !positions(
                        taken@,
                    ).contains(j) ==> ranks@[b as int]->0 <= ranks@[j]->0
            },
            None => forall|j: int|
                0 <= j < ranks@.len() && (#[trigger] ranks@[j]) is Some ==> positions(
                    taken@,
                ).contains(j),
        },
{
    let mut best: Option<usize> = None;
    let mut i: usize = 0;
    while i < ranks.len()
        invariant
            i <= ranks@.len(),
            match best {
                Some(b) => {
                    &&& b < i
                    &&& ranks@[b as int] is Some
                    &&& !positions(taken@).contains(b as int)
                    &&& forall|j: int|
                        0 <= j < i && (#[trigger] ranks@[j]) is Some && !positions(
                            taken@,
                        ).contains(j) ==> ranks@[b as int]->0 <= ranks@[j]->0
                },
                None => forall|j: int|
                    0 <= j < i && (#[trigger] ranks@[j]) is Some ==> positions(taken@).contains(j),
            },
        decreases ranks@.len() - i,
    {
        if let Some(rank) = ranks[i] {
            if !contains_position(taken, i) {
                let better: bool = match best {
                    Some(b) => match ranks[b] {
                        Some(low) => rank < low,
                        None => true,
                    },
                    None => true,
                };
                if better {
                    best = Some(i);
                }
            }
        }
        i += 1;
    }
    best
}

/// The positions of the `limit` earliest entries that are present, earliest first.
pub fn pick_earliest(ranks: &Vec<Option<i128>>, limit: usize) -> (picked: Vec<usize>)
    ensures
        picks_earliest(rank_values(ranks@), positions(picked@), limit as nat),
        forall|p: int| 0 <= p < picked@.len() ==> #[trigger] picked@[p] < ranks@.len(),
{
    let mut picked: Vec<usize> = Vec::new();
    let ghost values = rank_values(ranks@);
    while picked.len() < limit
        invariant
            values == rank_values(ranks@),
            picked@.len() <= limit,
            positions(picked@).no_duplicates(),
            forall|p: int| 0 <= p < picked@.len() ==> #[trigger] picked@[p] < ranks@.len(),
            forall|p: int|
                0 <= p < picked@.len() ==> 0 <= #[trigger] positions(picked@)[p] < values.len()
                    && values[positions(picked@)[p]] is Some,
            forall|p: int, q: int|
                0 <= p < q < picked@.len() ==> values[#[trigger] positions(picked@)[p]]->0
                    <= values[#[trigger] positions(picked@)[q]]->0,
            forall|j: int, p: int|
                #![trigger values[j], positions(picked@)[p]]
                0 <= j < values.len() && values[j] is Some && !positions(picked@).contains(j) && 0
                    <= p < picked@.len() ==> values[positions(picked@)[p]]->0 <= values[j]->0,
        decreases limit - picked@.len(),
    {
        match earliest_left(ranks, &picked) {
            Some(b) => {
                let ghost before = positions(picked@);
                picked.push(b);
                proof {
                    assert(positions(picked@) =~= before.push(b as int));
                    assert forall|j: int| positions(picked@).contains(j) <==> (before.contains(j)
                        || j == b as int) by {
                        assert(positions(picked@)[before.len() as int] == b as int);
                        if before.contains(j) {
                            let m = before.index_of(j);
                            assert(positions(picked@)[m] == j);
                        }
                    }
                    assert forall|j: int, p: int|
                        #![trigger values[j], positions(picked@)[p]]
                        0 <= j < values.len() && values[j] is Some && !positions(picked@).contains(
                            j,
                        ) && 0 <= p < picked@.len() implies values[positions(picked@)[p]]->0
                        <= values[j]->0 by {
                        if p < before.len() {
                            assert(before[p] == positions(picked@)[p]);
                        } else {
                            assert(ranks@[j] is Some);
                        }
                    }
                    assert forall|p: int, q: int| 0 <= p < q < picked@.len() implies values[
                    #[trigger] positions(picked@)[p]]->0 <= values[
                    #[trigger] positions(picked@)[q]]->0 by {
                        assert(before[p] == positions(picked@)[p]);
                        if q < before.len() {
                            assert(before[q] == positions(picked@)[q]);
                        } else {
                            assert(values[b as int] is Some);
                        }
                    }
                    assert forall|p: int| 0 <= p < picked@.len() implies 0
                        <= #[trigger] positions(picked@)[p] < values.len()
                        && values[positions(picked@)[p]] is Some by {
                        if p < before.len() {
                            assert(before[p] == positions(picked@)[p]);
                        }
                    }
                }
            },
            None => {
                proof {
                    assert forall|j: int| 0 <= j < values.len() && (
                    #[trigger] values[j]) is Some implies positions(picked@).contains(j) by {
                        assert(ranks@[j] is Some);
                    }
                }
                return picked;
            },
        }
    }
    picked
}

} // verus!
