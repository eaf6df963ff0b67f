//! The schema-on-write storage engine: a column registry that assigns field
//! names their positions on first sight, rows that are sparse sequences of
//! optional byte strings, and a table keyed by row-key strings.

use vstd::prelude::*;
use vstd::pervasive::VecAdditionalExecFns;

verus! {

/// A row: one optional byte string per column position; an absent column is
/// logically unset, not empty.
pub type Row = Vec<Option<Vec<u8>>>;

/// No two registered names are the same.
pub open spec fn reg_distinct(r: Seq<Seq<char>>) -> bool {
    forall|i: int, j: int| 0 <= i < j < r.len() ==> r[i] != r[j]
}

/// The column index a registered name resolves to.
pub open spec fn reg_index(r: Seq<Seq<char>>, name: Seq<char>) -> int {
    r.index_of(name)
}

/// In a registry without duplicates, extending the registry never moves an
/// already-registered name: its index is permanent.
pub proof fn lemma_reg_index_stable(r1: Seq<Seq<char>>, r2: Seq<Seq<char>>, name: Seq<char>)
    requires
        reg_distinct(r2),
        r1.is_prefix_of(r2),
        r1.contains(name),
    ensures
        r2.contains(name),
        reg_index(r2, name) == reg_index(r1, name),
        0 <= reg_index(r2, name) < r1.len(),
{
    let i1 = reg_index(r1, name);
    assert(0 <= i1 < r1.len() && r1[i1] == name);
    assert(r2[i1] == name);
    assert(r2.contains(name));
    let i2 = reg_index(r2, name);
    assert(0 <= i2 < r2.len() && r2[i2] == name);
    if i1 != i2 {
        assert(r2[i1] == r2[i2]);
    }
}

/// Law: in a registry without duplicates, distinct names always hold
/// distinct indices — concurrent first-uses of new names, serialized by the
/// exclusive section, can neither collide nor share a slot.
pub proof fn lemma_reg_index_injective(r: Seq<Seq<char>>, a: Seq<char>, b: Seq<char>)
    requires
        reg_distinct(r),
        r.contains(a),
        r.contains(b),
        a != b,
    ensures
        reg_index(r, a) != reg_index(r, b),
{
    let ia = reg_index(r, a);
    let ib = reg_index(r, b);
    assert(0 <= ia < r.len() && r[ia] == a);
    assert(0 <= ib < r.len() && r[ib] == b);
}

/// The append-only map from field name to column index, with its inverse.
/// Indices are assigned in the exact order names are first seen; once a name
/// has an index, the mapping never changes.
pub struct ColumnRegistry {
    names: Vec<String>,
}

impl View for ColumnRegistry {
    type V = Seq<Seq<char>>;

    closed spec fn view(&self) -> Seq<Seq<char>> {
        self.names.deep_view()
    }
}

impl ColumnRegistry {
    pub open spec fn wf(self) -> bool {
        reg_distinct(self@)
    }

    pub fn new() -> (r: Self)
        ensures
            r@ == Seq::<Seq<char>>::empty(),
            r.wf(),
    {
        ColumnRegistry { names: Vec::new() }
    }

    pub fn len(&self) -> (r: usize)
        ensures
            r == self@.len(),
    {
        self.names.len()
    }

    /// The inverse direction of the mapping: the name a column index was
    /// assigned to.
    pub fn name_of(&self, idx: usize) -> (r: &String)
        requires
            idx < self@.len(),
        ensures
            r@ == self@[idx as int],
    {
        &self.names[idx]
    }

    /// The shared-read path: the index of `name`, if it has ever been seen.
    pub fn lookup(&self, name: &String) -> (r: Option<usize>)
        requires
            self.wf(),
        ensures
            match r {
                Some(i) => self@.contains(name@) && i == reg_index(self@, name@) && i < self@.len()
                    && self@[i as int] == name@,
                None => !self@.contains(name@),
            },
    {
        let ghost v = self@;
        let n = self.names.len();
        let mut i: usize = 0;
        while i < n
            invariant
                self.wf(),
                v == self@,
                n == self@.len(),
                i <= n,
                forall|j: int| 0 <= j < i ==> self@[j] != name@,
            decreases n - i,
        {
            if self.names[i] == *name {
                proof {
                    assert(self@[i as int] == name@);
                    assert(self@.contains(name@));
                    let k = reg_index(self@, name@);
                    assert(0 <= k < self@.len() && self@[k] == name@);
                    if k != i as int {
                        assert(self@[k] == self@[i as int]);
                    }
                }
                return Some(i);
            }
            i = i + 1;
        }
        proof {
            if self@.contains(name@) {
                let k = reg_index(self@, name@);
                assert(self@[k] == name@);
            }
        }
        None
    }

    /// The exclusive path: the index of `name`, allocating the next index if
    /// the name has never been seen. Existing assignments are never touched.
    pub fn resolve(&mut self, name: &String) -> (idx: usize)
        requires
            old(self).wf(),
            old(self)@.len() < usize::MAX,
        ensures
            final(self).wf(),
            old(self)@.is_prefix_of(final(self)@),
            final(self)@.contains(name@),
            idx == reg_index(final(self)@, name@),
            idx < final(self)@.len(),
            final(self)@[idx as int] == name@,
            old(self)@.contains(name@) ==> final(self)@ == old(self)@,
            !old(self)@.contains(name@) ==> final(self)@ == old(self)@.push(name@) && idx == old(
                self,
            )@.len(),
            final(self)@.len() <= old(self)@.len() + 1,
    {
        let found = self.lookup(name);
        match found {
            Some(i) => i,
            None => {
                let idx = self.names.len();
                self.names.push(name.clone());
                proof {
                    assert(self@ =~= old(self)@.push(name@));
                    assert(self@[idx as int] == name@);
                    assert forall|i: int, j: int| 0 <= i < j < self@.len() implies self@[i]
                        != self@[j] by {
                        if j == idx as int {
                            assert(!old(self)@.contains(name@));
                            assert(self@[i] == old(self)@[i]);
                        }
                    }
                    assert(old(self)@.is_prefix_of(self@));
                    assert(self@.contains(name@));
                    let k = reg_index(self@, name@);
                    assert(0 <= k < self@.len() && self@[k] == name@);
                    if k != idx as int {
                        assert(self@[k] == self@[idx as int]);
                    }
                }
                idx
            },
        }
    }
}

/// The names of `values` that a registry `r0` has never seen, each taken
/// once, in first-occurrence order: exactly what resolving all of `values`
/// appends to `r0`.
pub open spec fn fresh_names(r0: Seq<Seq<char>>, values: Seq<(Seq<char>, Seq<u8>)>) -> Seq<
    Seq<char>,
>
    decreases values.len(),
{
    if values.len() == 0 {
        Seq::<Seq<char>>::empty()
    } else {
        let rest = fresh_names(r0, values.drop_last());
        let name = values.last().0;
        if r0.contains(name) || rest.contains(name) {
            rest
        } else {
            rest.push(name)
        }
    }
}

/// What resolving every field name of `values` does to a registry: it
/// becomes exactly the old registry with the never-seen names appended in
/// first-occurrence order — so fresh names receive consecutive indices, no
/// slot is skipped, and a registry that already held every name is
/// unchanged.
pub open spec fn resolve_all_post(
    r0: Seq<Seq<char>>,
    r1: Seq<Seq<char>>,
    values: Seq<(Seq<char>, Seq<u8>)>,
) -> bool {
    &&& reg_distinct(r1)
    &&& r1 == r0 + fresh_names(r0, values)
    &&& r0.is_prefix_of(r1)
    &&& r1.len() <= r0.len() + values.len()
    &&& forall|i: int| 0 <= i < values.len() ==> r1.contains(#[trigger] values[i].0)
    &&& (forall|i: int| 0 <= i < values.len() ==> r0.contains(#[trigger] values[i].0)) ==> r1
        == r0
}

/// Resolves each field name of `values` to its column index, allocating
/// indices for names never seen before. Returns one index per pair, in
/// order, together with one more than the largest index handed back (one
/// when `values` is empty).
pub fn get_key_indices(registry: &mut ColumnRegistry, values: &Vec<(String, Vec<u8>)>) -> (r: (
    Vec<usize>,
    usize,
))
    requires
        old(registry).wf(),
        old(registry)@.len() + values@.len() <= usize::MAX,
    ensures
        resolve_all_post(old(registry)@, final(registry)@, values.deep_view()),
        r.0@.len() == values@.len(),
        forall|i: int|
            0 <= i < values@.len() ==> #[trigger] r.0@[i] == reg_index(
                final(registry)@,
                values.deep_view()[i].0,
            ) && r.0@[i] < final(registry)@.len(),
        forall|i: int, j: int|
            0 <= i < values@.len() && 0 <= j < values@.len() && values.deep_view()[i].0
                != values.deep_view()[j].0 ==> r.0@[i] != r.0@[j],
        values@.len() == 0 ==> r.1 == 1,
        forall|i: int| 0 <= i < values@.len() ==> #[trigger] r.0@[i] < r.1,
        values@.len() > 0 ==> exists|i: int| 0 <= i < values@.len() && r.1 == #[trigger] r.0@[i]
            + 1,
{
    let ghost v = values.deep_view();
    let ghost r0 = registry@;
    proof {
        assert(v.take(0) =~= Seq::<(Seq<char>, Seq<u8>)>::empty());
        assert(r0 + fresh_names(r0, v.take(0)) =~= r0);
    }
    let mut idxs: Vec<usize> = Vec::new();
    let mut bound: usize = 1;
    let mut k: usize = 0;
    while k < values.len()
        invariant
            registry.wf(),
            r0 == old(registry)@,
            v == values.deep_view(),
            v.len() == values@.len(),
            r0.len() + values@.len() <= usize::MAX,
            k <= values@.len(),
            idxs@.len() == k,
            registry@ == r0 + fresh_names(r0, v.take(k as int)),
            r0.is_prefix_of(registry@),
            registry@.len() <= r0.len() + k,
            forall|i: int| 0 <= i < k ==> registry@.contains(#[trigger] v[i].0),
            forall|i: int|
                0 <= i < k ==> #[trigger] idxs@[i] < registry@.len() && registry@[idxs@[i] as int]
                    == v[i].0,
            (forall|i: int| 0 <= i < k ==> r0.contains(#[trigger] v[i].0)) ==> registry@ == r0,
            forall|i: int| 0 <= i < k ==> #[trigger] idxs@[i] < bound,
            k == 0 ==> bound == 1,
            k > 0 ==> exists|i: int| 0 <= i < k && bound == #[trigger] idxs@[i] + 1,
        decreases values@.len() - k,
    {
        let ghost rpre = registry@;
        proof {
            assert(v[k as int].0 == values@[k as int].0@);
        }
        let idx = registry.resolve(&values[k].0);
        proof {
            let name = v[k as int].0;
            let fk = fresh_names(r0, v.take(k as int));
            let tk1 = v.take(k + 1);
            assert(tk1.drop_last() =~= v.take(k as int));
            assert(tk1.last() == v[k as int]);
            assert(fresh_names(r0, tk1) == if r0.contains(name) || fk.contains(name) {
                fk
            } else {
                fk.push(name)
            });
            if r0.contains(name) {
                let x = choose|x: int| 0 <= x < r0.len() && r0[x] == name;
                assert(rpre[x] == name);
                assert(rpre.contains(name));
            }
            if fk.contains(name) {
                let x = choose|x: int| 0 <= x < fk.len() && fk[x] == name;
                assert(rpre[r0.len() + x] == name);
                assert(rpre.contains(name));
            }
            if rpre.contains(name) {
                let x = choose|x: int| 0 <= x < rpre.len() && rpre[x] == name;
                if x < r0.len() {
                    assert(r0[x] == name);
                    assert(r0.contains(name));
                } else {
                    assert(fk[x - r0.len()] == name);
                    assert(fk.contains(name));
                }
                assert(registry@ == rpre);
                assert(fresh_names(r0, tk1) == fk);
            } else {
                assert(!r0.contains(name) && !fk.contains(name));
                assert(registry@ == rpre.push(name));
                assert(fresh_names(r0, tk1) == fk.push(name));
                assert(rpre.push(name) =~= r0 + fk.push(name));
            }
            assert(registry@ == r0 + fresh_names(r0, v.take(k + 1)));
            assert(rpre.is_prefix_of(registry@));
            assert forall|i: int| 0 <= i < r0.len() implies registry@[i] == r0[i] by {
                assert(rpre[i] == r0[i]);
            }
            assert(r0.is_prefix_of(registry@));
            assert forall|i: int| 0 <= i < k implies #[trigger] idxs@[i] < registry@.len()
                && registry@[idxs@[i] as int] == v[i].0 by {
                assert(rpre[idxs@[i] as int] == v[i].0);
            }
            assert forall|i: int| 0 <= i < k implies registry@.contains(#[trigger] v[i].0) by {
                assert(registry@[idxs@[i] as int] == v[i].0);
            }
        }
        if bound < idx + 1 {
            bound = idx + 1;
        }
        let ghost idxs_pre = idxs@;
        idxs.push(idx);
        proof {
            let kk = k as int;
            assert(idxs@[kk] == idx);
            if bound == idx + 1 {
                assert(0 <= kk < k + 1 && bound == idxs@[kk] + 1);
            } else {
                assert(bound > idx + 1);
                assert(k > 0);
                let w = choose|i: int| 0 <= i < k && bound == #[trigger] idxs_pre[i] + 1;
                assert(idxs@[w] == idxs_pre[w]);
                assert(0 <= w < k + 1 && bound == idxs@[w] + 1);
            }
            if forall|i: int| 0 <= i < k + 1 ==> r0.contains(#[trigger] v[i].0) {
                assert(rpre == r0);
                assert(r0.contains(v[k as int].0));
            }
        }
        k = k + 1;
    }
    proof {
        assert(v.take(values@.len() as int) =~= v);
        assert(registry@ == r0 + fresh_names(r0, v));
        assert forall|i: int|
            0 <= i < values@.len() implies #[trigger] idxs@[i] == reg_index(registry@, v[i].0)
            && idxs@[i] < registry@.len() by {
            assert(registry@[idxs@[i] as int] == v[i].0);
            assert(registry@.contains(v[i].0));
            let m = reg_index(registry@, v[i].0);
            assert(0 <= m < registry@.len() && registry@[m] == v[i].0);
            if m != idxs@[i] as int {
                assert(registry@[m] == registry@[idxs@[i] as int]);
            }
        }
    }
    (idxs, bound)
}

/// The sparse row that placing `values` against a resolved registry `reg`
/// yields: sized one past the largest resolved index, the last occurrence of
/// each name winning its position, every other position absent. These
/// clauses pin the row down completely.
pub open spec fn placed_row(
    reg: Seq<Seq<char>>,
    values: Seq<(Seq<char>, Seq<u8>)>,
    rv: Seq<Option<Seq<u8>>>,
) -> bool {
    &&& (values.len() == 0 ==> rv.len() == 0)
    &&& (values.len() > 0 ==> exists|i: int|
        0 <= i < values.len() && rv.len() == reg_index(reg, #[trigger] values[i].0) + 1)
    &&& forall|i: int| 0 <= i < values.len() ==> reg_index(reg, #[trigger] values[i].0) < rv.len()
    &&& forall|i: int|
        0 <= i < values.len() && (forall|j: int|
            i < j < values.len() ==> (#[trigger] values[j].0) != values[i].0) ==> rv[reg_index(
            reg,
            #[trigger] values[i].0,
        )] == Some(values[i].1)
    &&& forall|p: int|
        0 <= p < rv.len() && (forall|i: int|
            0 <= i < values.len() ==> reg_index(reg, #[trigger] values[i].0) != p) ==> rv[p]
            is None
}

/// Builds the sparse row for one insert: resolves every field name, sizes
/// the row to the largest index seen, and writes each byte string at its
/// column, the last occurrence of a repeated name winning.
pub fn convert_to_row(registry: &mut ColumnRegistry, values: &Vec<(String, Vec<u8>)>) -> (row: Row)
    requires
        old(registry).wf(),
        old(registry)@.len() + values@.len() <= usize::MAX,
    ensures
        resolve_all_post(old(registry)@, final(registry)@, values.deep_view()),
        placed_row(final(registry)@, values.deep_view(), row.deep_view()),
{
    let ghost v = values.deep_view();
    let pair = get_key_indices(registry, values);
    let idxs = pair.0;
    let bound = pair.1;
    let ghost r1 = registry@;
    if values.len() == 0 {
        let row: Row = Vec::new();
        return row;
    }
    let mut row: Row = Vec::new();
    let mut p: usize = 0;
    while p < bound
        invariant
            p <= bound,
            row@.len() == p,
            forall|q: int| 0 <= q < p ==> row@[q] is None,
        decreases bound - p,
    {
        row.push(None);
        p = p + 1;
    }
    let mut k: usize = 0;
    while k < values.len()
        invariant
            registry@ == r1,
            registry.wf(),
            v == values.deep_view(),
            v.len() == values@.len(),
            k <= values@.len(),
            idxs@.len() == values@.len(),
            row@.len() == bound,
            forall|i: int|
                0 <= i < values@.len() ==> #[trigger] idxs@[i] == reg_index(r1, v[i].0)
                    && idxs@[i] < bound && r1.contains(v[i].0),
            forall|i: int|
                0 <= i < k && (forall|j: int| i < j < k ==> (#[trigger] v[j].0) != v[i].0)
                    ==> row.deep_view()[idxs@[i] as int] == Some(v[i].1),
            forall|q: int|
                0 <= q < bound && (forall|i: int| 0 <= i < k ==> #[trigger] idxs@[i] != q)
                    ==> row.deep_view()[q] is None,
        decreases values@.len() - k,
    {
        let ghost pre = row.deep_view();
        let idx = idxs[k];
        let cell: Option<Vec<u8>> = Some(values[k].1.clone());
        proof {
            assert(cell.deep_view() == Some(v[k as int].1));
        }
        row.set(idx, cell);
        proof {
            assert(row.deep_view() =~= pre.update(idx as int, Some(v[k as int].1)));
            let kk = k as int;
            assert forall|i: int|
                0 <= i < kk + 1 && (forall|j: int|
                    i < j < kk + 1 ==> (#[trigger] v[j].0) != v[i].0) implies row.deep_view()[idxs@[i] as int] == Some(v[i].1) by {
                assert(idxs@[i] == reg_index(r1, v[i].0));
                assert(r1.contains(v[i].0));
                assert(0 <= reg_index(r1, v[i].0) < r1.len() && r1[reg_index(r1, v[i].0)] == v[i].0);
                if i == kk {
                    assert(row.deep_view()[idx as int] == Some(v[kk].1));
                } else {
                    assert(v[kk].0 != v[i].0);
                    assert(idxs@[kk] == reg_index(r1, v[kk].0));
                    assert(r1.contains(v[kk].0));
                    assert(0 <= reg_index(r1, v[kk].0) < r1.len() && r1[reg_index(r1, v[kk].0)]
                        == v[kk].0);
                    assert(idxs@[i] != idxs@[kk]);
                    assert(row.deep_view()[idxs@[i] as int] == pre[idxs@[i] as int]);
                }
            }
        }
        k = k + 1;
    }
    proof {
        let rv = row.deep_view();
        assert(rv.len() == bound);
        assert forall|i: int| 0 <= i < v.len() implies reg_index(r1, #[trigger] v[i].0)
            < rv.len() by {
            assert(idxs@[i] == reg_index(r1, v[i].0) && idxs@[i] < bound);
        }
        assert forall|i: int|
            0 <= i < v.len() && (forall|j: int| i < j < v.len() ==> (#[trigger] v[j].0) != v[i].0)
            implies rv[reg_index(r1, v[i].0)] == Some(v[i].1) by {
            assert(idxs@[i] == reg_index(r1, v[i].0));
            assert(rv[idxs@[i] as int] == Some(v[i].1));
        }
        assert forall|p: int|
            0 <= p < rv.len() && (forall|i: int|
                0 <= i < v.len() ==> reg_index(r1, #[trigger] v[i].0) != p) implies rv[p]
            is None by {
            assert forall|i: int| 0 <= i < v.len() implies #[trigger] idxs@[i] != p by {
                assert(idxs@[i] == reg_index(r1, v[i].0));
            }
        }
        let i0 = choose|i: int| 0 <= i < v.len() && bound == #[trigger] idxs@[i] + 1;
        assert(idxs@[i0] == reg_index(r1, v[i0].0));
        assert(rv.len() == reg_index(r1, v[i0].0) + 1);
        assert(placed_row(r1, v, rv));
    }
    row
}

/// A row holds, at the column each of `names` resolves to in `cols`, a set
/// byte string of length `len`: what one successful insert of a full record
/// makes durably visible.
pub open spec fn row_covers_fields(
    cols: Seq<Seq<char>>,
    names: Seq<Seq<char>>,
    row: Seq<Option<Seq<u8>>>,
    len: nat,
) -> bool {
    forall|i: int|
        0 <= i < names.len() ==> {
            let col = reg_index(cols, #[trigger] names[i]);
            &&& 0 <= col < row.len()
            &&& row[col] is Some
            &&& row[col]->0.len() == len
        }
}

/// Overlaying row `b` on row `a`: wherever `b` has a value it wins, wherever
/// it is absent the old value shows through, and the result spans both.
pub open spec fn merge_rows(a: Seq<Option<Seq<u8>>>, b: Seq<Option<Seq<u8>>>) -> Seq<
    Option<Seq<u8>>,
> {
    Seq::new(
        if a.len() >= b.len() {
            a.len()
        } else {
            b.len()
        },
        |i: int|
            if 0 <= i < b.len() && b[i] is Some {
                b[i]
            } else if 0 <= i < a.len() {
                a[i]
            } else {
                None
            },
    )
}

/// Law: overlaying a second insert's row `b` on a stored row `a` leaves a
/// single row spanning both, whose set columns are exactly the union of the
/// two rows' set columns, the more recent insert winning wherever both are
/// set.
pub proof fn lemma_merge_rows_union(a: Seq<Option<Seq<u8>>>, b: Seq<Option<Seq<u8>>>)
    ensures
        merge_rows(a, b).len() == if a.len() >= b.len() {
            a.len()
        } else {
            b.len()
        },
        forall|i: int|
            0 <= i < merge_rows(a, b).len() ==> ((#[trigger] merge_rows(a, b)[i]) is Some <==> (0
                <= i < a.len() && a[i] is Some) || (0 <= i < b.len() && b[i] is Some)),
        forall|i: int|
            0 <= i < b.len() && b[i] is Some ==> #[trigger] merge_rows(a, b)[i] == b[i],
        forall|i: int|
            0 <= i < a.len() && (i >= b.len() || b[i] is None) ==> #[trigger] merge_rows(a, b)[i]
                == a[i],
{
}

fn merge_row_exec(a: &Row, b: Row) -> (r: Row)
    ensures
        r.deep_view() == merge_rows(a.deep_view(), b.deep_view()),
{
    let ghost goal = merge_rows(a.deep_view(), b.deep_view());
    let alen = a.len();
    let blen = b.len();
    let n = if alen >= blen {
        alen
    } else {
        blen
    };
    let mut r: Row = Vec::new();
    let mut i: usize = 0;
    while i < n
        invariant
            alen == a@.len(),
            blen == b@.len(),
            n == goal.len(),
            goal == merge_rows(a.deep_view(), b.deep_view()),
            i <= n,
            r.deep_view().len() == i,
            forall|q: int| 0 <= q < i ==> r.deep_view()[q] == goal[q],
        decreases n - i,
    {
        let cell: Option<Vec<u8>> = if i < blen {
            match &b[i] {
                Some(bytes) => Some(bytes.clone()),
                None => {
                    if i < alen {
                        match &a[i] {
                            Some(bytes) => Some(bytes.clone()),
                            None => None,
                        }
                    } else {
                        None
                    }
                },
            }
        } else {
            match &a[i] {
                Some(bytes) => Some(bytes.clone()),
                None => None,
            }
        };
        proof {
            assert(cell.deep_view() == goal[i as int]);
        }
        r.push(cell);
        i = i + 1;
    }
    proof {
        assert(r.deep_view() =~= goal);
    }
    r
}

/// Strict lexicographic order on key strings, by code point, a proper
/// prefix ordering before its extensions.
pub open spec fn lex_lt(a: Seq<char>, b: Seq<char>) -> bool
    decreases a.len(),
{
    if b.len() == 0 {
        false
    } else if a.len() == 0 {
        true
    } else if a[0] != b[0] {
        (a[0] as int) < (b[0] as int)
    } else {
        lex_lt(a.drop_first(), b.drop_first())
    }
}

pub proof fn lemma_lex_lt_irrefl(a: Seq<char>)
    ensures
        !lex_lt(a, a),
    decreases a.len(),
{
    if a.len() > 0 {
        lemma_lex_lt_irrefl(a.drop_first());
    }
}

/// Any two distinct keys are ordered one way or the other.
pub proof fn lemma_lex_lt_total(a: Seq<char>, b: Seq<char>)
    requires
        a != b,
    ensures
        lex_lt(a, b) || lex_lt(b, a),
    decreases a.len(),
{
    if a.len() == 0 {
        if b.len() == 0 {
            assert(a =~= b);
        }
    } else if b.len() == 0 {
    } else if a[0] != b[0] {
        assert((a[0] as int) != (b[0] as int));
    } else {
        if a.drop_first() == b.drop_first() {
            assert(a.drop_first() =~= a.subrange(1, a.len() as int));
            assert(b.drop_first() =~= b.subrange(1, b.len() as int));
            assert(a.len() == b.len());
            assert forall|i: int| 0 <= i < a.len() implies a[i] == b[i] by {
                if i > 0 {
                    assert(a.subrange(1, a.len() as int)[i - 1] == a[i]);
                    assert(b.subrange(1, b.len() as int)[i - 1] == b[i]);
                }
            }
            assert(a =~= b);
        }
        lemma_lex_lt_total(a.drop_first(), b.drop_first());
    }
}

pub proof fn lemma_lex_lt_trans(a: Seq<char>, b: Seq<char>, c: Seq<char>)
    requires
        lex_lt(a, b),
        lex_lt(b, c),
    ensures
        lex_lt(a, c),
    decreases a.len(),
{
    if c.len() == 0 {
        assert(false);
    } else if a.len() == 0 {
    } else {
        assert(b.len() > 0);
        if a[0] == b[0] && b[0] == c[0] {
            lemma_lex_lt_trans(a.drop_first(), b.drop_first(), c.drop_first());
        } else if a[0] != b[0] && b[0] != c[0] {
            assert((a[0] as int) < (b[0] as int) && (b[0] as int) < (c[0] as int));
        } else if a[0] != b[0] {
            assert((a[0] as int) < (c[0] as int));
        } else {
            assert((a[0] as int) < (c[0] as int));
        }
    }
}

/// Compares two key strings in the order the table keeps.
fn string_lex_lt(a: &String, b: &String) -> (r: bool)
    ensures
        r == lex_lt(a@, b@),
{
    let alen = a.as_str().unicode_len();
    let blen = b.as_str().unicode_len();
    proof {
        assert(a@.skip(0) =~= a@);
        assert(b@.skip(0) =~= b@);
    }
    let mut i: usize = 0;
    while i < alen && i < blen
        invariant
            alen == a@.len(),
            blen == b@.len(),
            i <= alen,
            i <= blen,
            lex_lt(a@, b@) == lex_lt(a@.skip(i as int), b@.skip(i as int)),
            forall|q: int| 0 <= q < i ==> a@[q] == b@[q],
        decreases alen - i,
    {
        let ca = a.as_str().get_char(i);
        let cb = b.as_str().get_char(i);
        let ghost sa = a@.skip(i as int);
        let ghost sb = b@.skip(i as int);
        proof {
            assert(sa[0] == a@[i as int] && sb[0] == b@[i as int]);
            assert(sa.drop_first() =~= a@.skip(i + 1));
            assert(sb.drop_first() =~= b@.skip(i + 1));
        }
        if ca != cb {
            return (ca as u32) < (cb as u32);
        }
        i = i + 1;
    }
    proof {
        let sa = a@.skip(i as int);
        let sb = b@.skip(i as int);
        if i >= blen {
            assert(sb.len() == 0);
            assert(!lex_lt(sa, sb));
        } else {
            assert(sa.len() == 0 && sb.len() > 0);
            assert(lex_lt(sa, sb));
        }
    }
    i < blen
}

/// The table: row keys mapped to rows, kept in strictly increasing
/// lexicographic key order, every key held at most once, mutated only
/// through the engine's insert path.
pub struct DataTable {
    rows: Vec<(String, Row)>,
}

impl DataTable {
    /// The table's contents as a sequence of key / row pairs.
    pub closed spec fn spec_rows(self) -> Seq<(Seq<char>, Seq<Option<Seq<u8>>>)> {
        self.rows.deep_view()
    }

    pub open spec fn spec_len(self) -> nat {
        self.spec_rows().len()
    }

    pub open spec fn spec_contains_key(self, k: Seq<char>) -> bool {
        exists|i: int| 0 <= i < self.spec_rows().len() && (#[trigger] self.spec_rows()[i]).0 == k
    }

    pub open spec fn spec_key_index(self, k: Seq<char>) -> int {
        choose|i: int| 0 <= i < self.spec_rows().len() && (#[trigger] self.spec_rows()[i]).0 == k
    }

    /// The row stored under `k` (meaningful only when the key is present).
    pub open spec fn spec_row_of(self, k: Seq<char>) -> Seq<Option<Seq<u8>>> {
        self.spec_rows()[self.spec_key_index(k)].1
    }

    /// No key appears twice, and the rows sit in strictly increasing
    /// lexicographic key order.
    pub open spec fn wf(self) -> bool {
        &&& forall|i: int, j: int|
            0 <= i < j < self.spec_rows().len() ==> (#[trigger] self.spec_rows()[i]).0 != (
            #[trigger] self.spec_rows()[j]).0
        &&& forall|i: int, j: int|
            0 <= i < j < self.spec_rows().len() ==> lex_lt(
                (#[trigger] self.spec_rows()[i]).0,
                (#[trigger] self.spec_rows()[j]).0,
            )
    }

    /// In a well-formed table a key names at most one position.
    pub proof fn lemma_unique_key(self, a: int, b: int)
        requires
            self.wf(),
            0 <= a < self.spec_rows().len(),
            0 <= b < self.spec_rows().len(),
            self.spec_rows()[a].0 == self.spec_rows()[b].0,
        ensures
            a == b,
    {
        if a < b {
            assert(self.spec_rows()[a].0 != self.spec_rows()[b].0);
        } else if b < a {
            assert(self.spec_rows()[b].0 != self.spec_rows()[a].0);
        }
    }

    pub fn new() -> (r: Self)
        ensures
            r.wf(),
            r.spec_len() == 0,
            forall|k: Seq<char>| !r.spec_contains_key(k),
    {
        DataTable { rows: Vec::new() }
    }

    pub fn len(&self) -> (r: usize)
        ensures
            r == self.spec_len(),
    {
        self.rows.len()
    }

    /// Whether `key` has a row.
    pub fn contains_key(&self, key: &String) -> (r: bool)
        requires
            self.wf(),
        ensures
            r == self.spec_contains_key(key@),
    {
        let n = self.rows.len();
        let mut i: usize = 0;
        while i < n
            invariant
                n == self.spec_rows().len(),
                i <= n,
                forall|j: int| 0 <= j < i ==> (#[trigger] self.spec_rows()[j]).0 != key@,
            decreases n - i,
        {
            if self.rows[i].0 == *key {
                proof {
                    assert(self.spec_rows()[i as int].0 == key@);
                }
                return true;
            }
            i = i + 1;
        }
        false
    }

    /// The key at position `i` of the table's order; by `wf`, walking the
    /// positions yields the keys in strictly increasing lexicographic
    /// order.
    pub fn key_at(&self, i: usize) -> (r: &String)
        requires
            i < self.spec_len(),
        ensures
            r@ == self.spec_rows()[i as int].0,
    {
        &self.rows[i].0
    }

    /// The row under `key`, if the key has one.
    pub fn get(&self, key: &String) -> (r: Option<&Row>)
        requires
            self.wf(),
        ensures
            match r {
                Some(row) => self.spec_contains_key(key@) && row.deep_view() == self.spec_row_of(
                    key@,
                ),
                None => !self.spec_contains_key(key@),
            },
    {
        let n = self.rows.len();
        let mut i: usize = 0;
        while i < n
            invariant
                self.wf(),
                n == self.spec_rows().len(),
                i <= n,
                forall|j: int| 0 <= j < i ==> (#[trigger] self.spec_rows()[j]).0 != key@,
            decreases n - i,
        {
            if self.rows[i].0 == *key {
                proof {
                    assert(self.spec_rows()[i as int].0 == key@);
                    assert(self.spec_contains_key(key@));
                    let w = self.spec_key_index(key@);
                    assert(0 <= w < self.spec_rows().len() && self.spec_rows()[w].0 == key@);
                    self.lemma_unique_key(w, i as int);
                    assert(self.rows[i as int].1.deep_view() == self.spec_rows()[i as int].1);
                }
                return Some(&self.rows[i].1);
            }
            i = i + 1;
        }
        proof {
            if self.spec_contains_key(key@) {
                let w = self.spec_key_index(key@);
                assert(self.spec_rows()[w].0 == key@);
            }
        }
        None
    }

    /// Inserts `row` under `key`: a new key gets the row as given, an
    /// existing key keeps its row with the new one overlaid on top, and no
    /// other key is touched.
    pub fn insert_row(&mut self, key: String, row: Row)
        requires
            old(self).wf(),
            old(self).spec_len() < usize::MAX,
        ensures
            final(self).wf(),
            final(self).spec_contains_key(key@),
            final(self).spec_len() == old(self).spec_len() + if old(self).spec_contains_key(key@) {
                0int
            } else {
                1int
            },
            forall|k: Seq<char>|
                k != key@ ==> (final(self).spec_contains_key(k) == old(self).spec_contains_key(k)),
            forall|k: Seq<char>|
                k != key@ && old(self).spec_contains_key(k) ==> final(self).spec_row_of(k) == old(
                    self,
                ).spec_row_of(k),
            final(self).spec_row_of(key@) == merge_rows(
                if old(self).spec_contains_key(key@) {
                    old(self).spec_row_of(key@)
                } else {
                    Seq::<Option<Seq<u8>>>::empty()
                },
                row.deep_view(),
            ),
    {
        let ghost pre = self.spec_rows();
        let n = self.rows.len();
        let mut i: usize = 0;
        while i < n && string_lex_lt(&self.rows[i].0, &key)
            invariant
                self == old(self),
                old(self).wf(),
                old(self).spec_len() < usize::MAX,
                pre == self.spec_rows(),
                n == pre.len(),
                i <= n,
                forall|j: int| 0 <= j < i ==> lex_lt((#[trigger] pre[j]).0, key@),
            decreases n - i,
        {
            i = i + 1;
        }
        if i < n && self.rows[i].0 == *(&key) {
            proof {
                assert(pre[i as int].0 == key@);
                assert(old(self).spec_contains_key(key@));
                let w = old(self).spec_key_index(key@);
                assert(0 <= w < pre.len() && pre[w].0 == key@);
                old(self).lemma_unique_key(w, i as int);
            }
            let merged = merge_row_exec(&self.rows[i].1, row);
            self.rows.set(i, (key, merged));
            proof {
                let post = self.spec_rows();
                assert(post =~= pre.update(
                    i as int,
                    (key@, merge_rows(pre[i as int].1, row.deep_view())),
                ));
                assert(post[i as int].0 == key@);
                assert(final(self).spec_contains_key(key@));
                assert forall|i2: int, j2: int| 0 <= i2 < j2 < post.len() implies (
                #[trigger] post[i2]).0 != (#[trigger] post[j2]).0 by {
                    if i2 != i as int && j2 != i as int {
                        assert(post[i2] == pre[i2] && post[j2] == pre[j2]);
                    } else if i2 == i as int {
                        assert(post[j2] == pre[j2]);
                        if pre[j2].0 == key@ {
                            old(self).lemma_unique_key(j2, i as int);
                        }
                    } else {
                        assert(post[i2] == pre[i2]);
                        if pre[i2].0 == key@ {
                            old(self).lemma_unique_key(i2, i as int);
                        }
                    }
                }
                let w2 = final(self).spec_key_index(key@);
                assert(0 <= w2 < post.len() && post[w2].0 == key@);
                final(self).lemma_unique_key(w2, i as int);
                assert forall|k: Seq<char>| k != key@ implies (final(self).spec_contains_key(k)
                    == old(self).spec_contains_key(k)) by {
                    if old(self).spec_contains_key(k) {
                        let u = old(self).spec_key_index(k);
                        assert(pre[u].0 == k);
                        assert(u != i as int);
                        assert(post[u].0 == k);
                    }
                    if final(self).spec_contains_key(k) {
                        let u = final(self).spec_key_index(k);
                        assert(post[u].0 == k);
                        assert(u != i as int);
                        assert(pre[u].0 == k);
                    }
                }
                assert forall|k: Seq<char>|
                    k != key@ && old(self).spec_contains_key(k) implies final(self).spec_row_of(
                    k,
                ) == old(self).spec_row_of(k) by {
                    let u = old(self).spec_key_index(k);
                    assert(pre[u].0 == k);
                    assert(u != i as int);
                    assert(post[u] == pre[u]);
                    let u2 = final(self).spec_key_index(k);
                    assert(post[u2].0 == k);
                    assert(u2 != i as int);
                    assert(pre[u2].0 == k);
                    old(self).lemma_unique_key(u, u2);
                }
            }
        } else {
            proof {
                if i < n {
                    assert(pre[i as int].0 != key@);
                    assert(!lex_lt(pre[i as int].0, key@));
                    lemma_lex_lt_total(key@, pre[i as int].0);
                    assert(lex_lt(key@, pre[i as int].0));
                }
                assert forall|j: int| i <= j < n implies lex_lt(key@, (#[trigger] pre[j]).0) by {
                    if j > i {
                        assert(lex_lt(pre[i as int].0, pre[j].0));
                        lemma_lex_lt_trans(key@, pre[i as int].0, pre[j].0);
                    }
                }
                assert forall|j: int| 0 <= j < n implies (#[trigger] pre[j]).0 != key@ by {
                    if pre[j].0 == key@ {
                        lemma_lex_lt_irrefl(key@);
                    }
                }
                if old(self).spec_contains_key(key@) {
                    let w = old(self).spec_key_index(key@);
                    assert(pre[w].0 == key@);
                    assert(false);
                }
            }
            let ghost rowdv = row.deep_view();
            let ghost rpre = self.rows@;
            self.rows.insert(i, (key, row));
            proof {
                let post = self.spec_rows();
                let ii = i as int;
                rpre.insert_ensures(ii, (key, row));
                assert(self.rows@ == rpre.insert(ii, (key, row)));
                assert(post.len() == pre.len() + 1);
                assert forall|x: int| 0 <= x < ii implies #[trigger] post[x] == pre[x] by {
                    assert(self.rows@[x] == rpre[x]);
                }
                assert forall|x: int| ii < x < post.len() implies #[trigger] post[x] == pre[x
                    - 1] by {
                    assert(self.rows@[x] == rpre[x - 1]);
                }
                assert(self.rows@[ii] == (key, row));
                assert(post[ii] == (key@, rowdv));
                assert(final(self).spec_contains_key(key@));
                assert forall|i2: int, j2: int|
                    0 <= i2 < j2 < post.len() implies lex_lt(
                    (#[trigger] post[i2]).0,
                    (#[trigger] post[j2]).0,
                ) by {
                    if j2 < ii {
                        assert(post[i2] == pre[i2] && post[j2] == pre[j2]);
                    } else if i2 > ii {
                        assert(post[i2] == pre[i2 - 1] && post[j2] == pre[j2 - 1]);
                    } else if i2 < ii && j2 == ii {
                        assert(post[i2] == pre[i2]);
                        assert(lex_lt(pre[i2].0, key@));
                    } else if i2 == ii {
                        assert(post[j2] == pre[j2 - 1]);
                        assert(lex_lt(key@, pre[j2 - 1].0));
                    } else {
                        assert(i2 < ii && j2 > ii);
                        assert(post[i2] == pre[i2] && post[j2] == pre[j2 - 1]);
                        if i2 == j2 - 1 {
                            assert(lex_lt(pre[i2].0, key@));
                            assert(lex_lt(key@, pre[j2 - 1].0));
                            lemma_lex_lt_trans(pre[i2].0, key@, pre[j2 - 1].0);
                        } else {
                            assert(lex_lt(pre[i2].0, pre[j2 - 1].0));
                        }
                    }
                }
                assert forall|i2: int, j2: int| 0 <= i2 < j2 < post.len() implies (
                #[trigger] post[i2]).0 != (#[trigger] post[j2]).0 by {
                    assert(lex_lt(post[i2].0, post[j2].0));
                    if post[i2].0 == post[j2].0 {
                        lemma_lex_lt_irrefl(post[i2].0);
                    }
                }
                let w2 = final(self).spec_key_index(key@);
                assert(0 <= w2 < post.len() && post[w2].0 == key@);
                final(self).lemma_unique_key(w2, ii);
                assert(final(self).spec_row_of(key@) == rowdv);
                assert(merge_rows(Seq::<Option<Seq<u8>>>::empty(), rowdv) =~= rowdv);
                assert forall|k: Seq<char>| k != key@ implies (final(self).spec_contains_key(k)
                    == old(self).spec_contains_key(k)) by {
                    if old(self).spec_contains_key(k) {
                        let u = old(self).spec_key_index(k);
                        assert(pre[u].0 == k);
                        if u < ii {
                            assert(post[u].0 == k);
                        } else {
                            assert(post[u + 1].0 == k);
                        }
                        assert(final(self).spec_contains_key(k));
                    }
                    if final(self).spec_contains_key(k) {
                        let u = final(self).spec_key_index(k);
                        assert(post[u].0 == k);
                        assert(u != ii);
                        if u < ii {
                            assert(pre[u].0 == k);
                        } else {
                            assert(pre[u - 1].0 == k);
                        }
                        assert(old(self).spec_contains_key(k));
                    }
                }
                assert forall|k: Seq<char>|
                    k != key@ && old(self).spec_contains_key(k) implies final(self).spec_row_of(
                    k,
                ) == old(self).spec_row_of(k) by {
                    let u = old(self).spec_key_index(k);
                    assert(pre[u].0 == k);
                    let u2 = final(self).spec_key_index(k);
                    assert(post[u2].0 == k);
                    assert(u2 != ii);
                    let um: int = if u2 < ii {
                        u2
                    } else {
                        u2 - 1
                    };
                    assert(post[u2] == pre[um]);
                    assert(pre[um].0 == k);
                    old(self).lemma_unique_key(u, um);
                }
            }
        }
    }
}

/// What one engine insert does, stated over the registry and table alone:
/// both engine variants promise exactly this, so identical inputs give
/// identical table contents whichever variant performs them.
pub open spec fn engine_insert_post(
    c0: ColumnRegistry,
    t0: DataTable,
    c1: ColumnRegistry,
    t1: DataTable,
    key: Seq<char>,
    values: Seq<(Seq<char>, Seq<u8>)>,
) -> bool {
    &&& resolve_all_post(c0@, c1@, values)
    &&& t1.wf()
    &&& t1.spec_contains_key(key)
    &&& t1.spec_len() == t0.spec_len() + if t0.spec_contains_key(key) {
        0int
    } else {
        1int
    }
    &&& forall|k: Seq<char>| k != key ==> t1.spec_contains_key(k) == t0.spec_contains_key(k)
    &&& forall|k: Seq<char>|
        k != key && t0.spec_contains_key(k) ==> t1.spec_row_of(k) == t0.spec_row_of(k)
    &&& exists|rv: Seq<Option<Seq<u8>>>|
        placed_row(c1@, values, rv) && t1.spec_row_of(key) == merge_rows(
            if t0.spec_contains_key(key) {
                t0.spec_row_of(key)
            } else {
                Seq::<Option<Seq<u8>>>::empty()
            },
            rv,
        )
}

/// The insert path shared by both engine variants: place the field values
/// into a sparse row against the registry, then put the row into the table.
pub fn engine_insert(
    columns: &mut ColumnRegistry,
    db: &mut DataTable,
    key: String,
    values: &Vec<(String, Vec<u8>)>,
) -> (r: Result<(), ()>)
    requires
        old(columns).wf(),
        old(columns)@.len() + values@.len() <= usize::MAX,
        old(db).wf(),
        old(db).spec_len() < usize::MAX,
    ensures
        r is Ok,
        final(columns).wf(),
        final(db).wf(),
        engine_insert_post(
            *old(columns),
            *old(db),
            *final(columns),
            *final(db),
            key@,
            values.deep_view(),
        ),
{
    let row = convert_to_row(columns, values);
    let ghost rv = row.deep_view();
    db.insert_row(key, row);
    proof {
        assert(placed_row(columns@, values.deep_view(), rv));
    }
    Ok(())
}

/// The engine variant that serializes all writers under one exclusive
/// section when run concurrently; its insert logic and results are exactly
/// those of `engine_insert`.
pub struct StdBTreeMapMutex {
    pub columns: ColumnRegistry,
    pub db: DataTable,
}

impl StdBTreeMapMutex {
    pub open spec fn wf(self) -> bool {
        self.columns.wf() && self.db.wf()
    }

    pub fn new() -> (r: Self)
        ensures
            r.wf(),
            r.columns@ == Seq::<Seq<char>>::empty(),
            r.db.spec_len() == 0,
            forall|k: Seq<char>| !r.db.spec_contains_key(k),
    {
        StdBTreeMapMutex { columns: ColumnRegistry::new(), db: DataTable::new() }
    }

    /// Inserts one record. Never fails in this engine: the reserved error
    /// value is for future backends.
    pub fn insert(&mut self, _table: &str, key: String, values: Vec<(String, Vec<u8>)>) -> (r:
        Result<(), ()>)
        requires
            old(self).wf(),
            old(self).columns@.len() + values@.len() <= usize::MAX,
            old(self).db.spec_len() < usize::MAX,
        ensures
            r is Ok,
            final(self).wf(),
            engine_insert_post(
                old(self).columns,
                old(self).db,
                final(self).columns,
                final(self).db,
                key@,
                values.deep_view(),
            ),
    {
        engine_insert(&mut self.columns, &mut self.db, key, &values)
    }
}

/// The engine variant that, run concurrently, takes shared access for
/// lookups and exclusive access only to allocate and write; its insert
/// logic and results are exactly those of `engine_insert`.
pub struct StdBTreeMapRwLock {
    pub columns: ColumnRegistry,
    pub db: DataTable,
}

impl StdBTreeMapRwLock {
    pub open spec fn wf(self) -> bool {
        self.columns.wf() && self.db.wf()
    }

    pub fn new() -> (r: Self)
        ensures
            r.wf(),
            r.columns@ == Seq::<Seq<char>>::empty(),
            r.db.spec_len() == 0,
            forall|k: Seq<char>| !r.db.spec_contains_key(k),
    {
        StdBTreeMapRwLock { columns: ColumnRegistry::new(), db: DataTable::new() }
    }

    /// Inserts one record, with the same contract as the mutex variant:
    /// identical inputs leave identical table contents.
    pub fn insert(&mut self, _table: &str, key: String, values: Vec<(String, Vec<u8>)>) -> (r:
        Result<(), ()>)
        requires
            old(self).wf(),
            old(self).columns@.len() + values@.len() <= usize::MAX,
            old(self).db.spec_len() < usize::MAX,
        ensures
            r is Ok,
            final(self).wf(),
            engine_insert_post(
                old(self).columns,
                old(self).db,
                final(self).columns,
                final(self).db,
                key@,
                values.deep_view(),
            ),
    {
        engine_insert(&mut self.columns, &mut self.db, key, &values)
    }
}

} // verus!
