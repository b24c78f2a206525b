//! The copy-constraint permutation of a trace: every set of cells that must
//! hold the same value is turned into a cycle, each cell pointing to the
//! next one, and every other cell points to itself.
use vstd::prelude::*;
use crate::circuit::SlotId;
use crate::field::{PastaFE, PastaFieldId};
use crate::table::Table;
use crate::trace_builder::{slot_ok, slot_value, copies_agree, FieldTrace};
use vstd::arithmetic::power::pow;

verus! {

/// The permutation of the cells of the first 8 columns, by flat position,
/// and the columns of identity labels and permuted labels it is committed
/// by.
pub struct Sigma {
    pub sigma: Vec<SlotId>,
    pub ids: Table,
    pub sigmas: Table,
}

/// `s` is the cell at flat position `j` of a table of `rows` rows.
pub open spec fn is_cell(s: SlotId, j: int, rows: int) -> bool {
    s.spec_row() == j % rows + 1 && s.spec_column() == j / rows + 1
}

/// Every cell named by a class lies in the first 8 columns of `rows` rows.
pub open spec fn classes_ok(eqs: Seq<Vec<SlotId>>, rows: int) -> bool {
    forall|c: int, i: int| 0 <= c < eqs.len() && 0 <= i < eqs[c]@.len() ==> slot_ok(#[trigger] eqs[c]@[i], rows)
}

/// No cell is named twice, in one class or in two.
pub open spec fn classes_disjoint(eqs: Seq<Vec<SlotId>>, rows: int) -> bool {
    forall|c1: int, i1: int, c2: int, i2: int|
        #![trigger eqs[c1]@[i1], eqs[c2]@[i2]]
        0 <= c1 < eqs.len() && 0 <= i1 < eqs[c1]@.len() && 0 <= c2 < eqs.len() && 0 <= i2 < eqs[c2]@.len()
            && (c1 != c2 || i1 != i2) ==> eqs[c1]@[i1].flat(rows) != eqs[c2]@[i2].flat(rows)
}

/// The cell after the `i`-th one of a class, cyclically.
pub open spec fn next_in(cls: Seq<SlotId>, i: int) -> SlotId {
    cls[(i + 1) % (cls.len() as int)]
}

/// No class of more than one cell among the first `k` names position `j`.
pub open spec fn untouched(eqs: Seq<Vec<SlotId>>, rows: int, k: int, j: int) -> bool {
    forall|c: int, i: int|
        0 <= c < k && 0 <= i < eqs[c]@.len() && eqs[c]@.len() > 1 ==> (#[trigger] eqs[c]@[i]).flat(rows) != j
}

/// `sigma` is the copy-constraint permutation of the classes `eqs` of a
/// trace of `rows` rows: cells of no class of two or more are fixed, and
/// (for classes that share no cell) each cell of a class is sent to the
/// next one.
pub open spec fn is_copy_permutation(eqs: Seq<Vec<SlotId>>, rows: int, sigma: Seq<SlotId>) -> bool {
    &&& sigma.len() == rows * 8
    &&& forall|j: int| 0 <= j < rows * 8 ==> slot_ok(#[trigger] sigma[j], rows)
    &&& forall|j: int| 0 <= j < rows * 8 && untouched(eqs, rows, eqs.len() as int, j) ==> is_cell(#[trigger] sigma[j], j, rows)
    &&& classes_disjoint(eqs, rows) ==> forall|c: int, i: int|
        0 <= c < eqs.len() && 0 <= i < eqs[c]@.len() && eqs[c]@.len() > 1 ==> sigma[(#[trigger] eqs[c]@[i]).flat(rows)]
            == next_in(eqs[c]@, i)
}

/// Every class names cells of equal value in `data` (indexed by flat
/// position).
pub open spec fn classes_constant<T>(eqs: Seq<Vec<SlotId>>, rows: int, data: Seq<T>) -> bool {
    forall|c: int, i1: int, i2: int|
        0 <= c < eqs.len() && 0 <= i1 < eqs[c]@.len() && 0 <= i2 < eqs[c]@.len() ==> #[trigger] data[eqs[c]@[i1].flat(rows)]
            == #[trigger] data[eqs[c]@[i2].flat(rows)]
}

/// The permutation argument's completeness: when every copy-constraint
/// class holds a single value, each cell holds the value of the cell the
/// permutation sends it to.
pub proof fn lemma_permutation_preserves_constant_classes<T>(
    eqs: Seq<Vec<SlotId>>,
    rows: int,
    sigma: Seq<SlotId>,
    data: Seq<T>,
)
    requires
        rows > 0,
        classes_ok(eqs, rows),
        classes_disjoint(eqs, rows),
        is_copy_permutation(eqs, rows, sigma),
        classes_constant(eqs, rows, data),
    ensures
        forall|j: int| 0 <= j < rows * 8 ==> #[trigger] data[j] == data[sigma[j].flat(rows)],
{
    assert forall|j: int| 0 <= j < rows * 8 implies #[trigger] data[j] == data[sigma[j].flat(rows)] by {
        if untouched(eqs, rows, eqs.len() as int, j) {
            let s = sigma[j];
            assert(is_cell(s, j, rows));
            vstd::arithmetic::div_mod::lemma_fundamental_div_mod(j, rows);
            assert(s.flat(rows) == j) by (nonlinear_arith)
                requires
                    s.flat(rows) == s.spec_row() - 1 + (s.spec_column() - 1) * rows,
                    s.spec_row() == j % rows + 1,
                    s.spec_column() == j / rows + 1,
                    j == rows * (j / rows) + j % rows,
            ;
        } else {
            let (c, i) = choose|c: int, i: int|
                0 <= c < eqs.len() && 0 <= i < eqs[c]@.len() && eqs[c]@.len() > 1 && (#[trigger] eqs[c]@[i]).flat(rows) == j;
            let len = eqs[c]@.len() as int;
            let i2 = (i + 1) % len;
            assert(0 <= i2 < len);
            assert(sigma[eqs[c]@[i].flat(rows)] == next_in(eqs[c]@, i));
            assert(data[eqs[c]@[i].flat(rows)] == data[eqs[c]@[i2].flat(rows)]);
        }
    }
}

/// A cell of the first 8 columns has a flat position inside them.
pub proof fn lemma_flat_range(s: SlotId, rows: int)
    requires
        rows > 0,
        slot_ok(s, rows),
    ensures
        0 <= s.flat(rows) < rows * 8,
{
    assert(0 <= s.flat(rows) < rows * 8) by (nonlinear_arith)
        requires
            s.flat(rows) == s.spec_row() - 1 + (s.spec_column() - 1) * rows,
            1 <= s.spec_row() <= rows,
            1 <= s.spec_column() <= 8,
    ;
}

/// The copy-constraint permutation for the classes `eqs` of a trace of
/// `rows` rows (a power of two): each class of two or more cells becomes a
/// cycle, and each other cell is fixed. The label of the cell at flat
/// position `k` is `k + 1`.
pub fn build_sigma(eqs: &Vec<Vec<SlotId>>, rows: usize, fid: PastaFieldId) -> (r: Sigma)
    requires
        exists|e: nat| rows == pow(2, e),
        rows * 8 <= usize::MAX,
        classes_ok(eqs@, rows as int),
    ensures
        is_copy_permutation(eqs@, rows as int, r.sigma@),
        r.sigma@.len() == rows * 8,
        forall|j: int| 0 <= j < rows * 8 ==> slot_ok(#[trigger] r.sigma@[j], rows as int),
        forall|j: int|
            0 <= j < rows * 8 && untouched(eqs@, rows as int, eqs@.len() as int, j) ==> is_cell(
                #[trigger] r.sigma@[j],
                j,
                rows as int,
            ),
        classes_disjoint(eqs@, rows as int) ==> forall|c: int, i: int|
            0 <= c < eqs@.len() && 0 <= i < eqs@[c]@.len() && eqs@[c]@.len() > 1 ==> r.sigma@[(
            #[trigger] eqs@[c]@[i]).flat(rows as int)] == next_in(eqs@[c]@, i),
        r.ids.wf() && r.ids.cols == 8 && r.ids.rows == rows,
        r.sigmas.wf() && r.sigmas.cols == 8 && r.sigmas.rows == rows,
        forall|k: int| 0 <= k < rows * 8 ==> (#[trigger] r.ids.data@[k]).in_field(fid) && r.ids.data@[k].v() == k + 1,
        forall|k: int| 0 <= k < rows * 8 ==> (#[trigger] r.sigmas.data@[k]).in_field(fid) && r.sigmas.data@[k].v()
            == r.sigma@[k].flat(rows as int) + 1,
{
    let n: usize = rows * 8;
    let ghost rr = rows as int;
    proof {
        let e = choose|e: nat| rows == pow(2, e);
        vstd::arithmetic::power::lemma_pow_positive(2, e);
    }
    let mut sigma: Vec<SlotId> = Vec::new();
    let mut k: usize = 0;
    while k < n
        invariant
            rows > 0,
            n == rows * 8,
            rr == rows,
            k <= n,
            sigma@.len() == k,
            forall|j: int| 0 <= j < k ==> is_cell(#[trigger] sigma@[j], j, rr) && slot_ok(sigma@[j], rr),
        decreases n - k,
    {
        proof {
            assert(k / rows < 8) by (nonlinear_arith)
                requires
                    k < rows * 8,
                    rows > 0,
            ;
            vstd::arithmetic::div_mod::lemma_mod_bound(k as int, rows as int);
        }
        let s = SlotId::from_usize(k, rows);
        sigma.push(s);
        proof {
            assert(sigma@[k as int] == s);
            assert(is_cell(s, k as int, rr));
            assert(slot_ok(s, rr));
        }
        k = k + 1;
    }
    let mut c: usize = 0;
    while c < eqs.len()
        invariant
            rows > 0,
            n == rows * 8,
            rr == rows,
            c <= eqs@.len(),
            sigma@.len() == n,
            classes_ok(eqs@, rr),
            forall|j: int| 0 <= j < n ==> slot_ok(#[trigger] sigma@[j], rr),
            forall|j: int| 0 <= j < n && untouched(eqs@, rr, c as int, j) ==> is_cell(#[trigger] sigma@[j], j, rr),
            classes_disjoint(eqs@, rr) ==> forall|c2: int, i: int|
                0 <= c2 < c && 0 <= i < eqs@[c2]@.len() && eqs@[c2]@.len() > 1 ==> sigma@[(
                #[trigger] eqs@[c2]@[i]).flat(rr)] == next_in(eqs@[c2]@, i),
        decreases eqs@.len() - c,
    {
        let cls = &eqs[c];
        let len = cls.len();
        if len > 1 {
            let ghost before = sigma@;
            let mut i: usize = 0;
            while i < len
                invariant
                    rows > 0,
                    n == rows * 8,
                    rr == rows,
                    c < eqs@.len(),
                    cls@ == eqs@[c as int]@,
                    len == cls@.len(),
                    len > 1,
                    i <= len,
                    sigma@.len() == n,
                    before.len() == n,
                    classes_ok(eqs@, rr),
                    forall|j: int| 0 <= j < n ==> slot_ok(#[trigger] sigma@[j], rr),
                    forall|j: int|
                        #![trigger sigma@[j]]
                        0 <= j < n && (forall|i2: int| 0 <= i2 < i ==> (#[trigger] cls@[i2]).flat(rr) != j) ==> sigma@[j]
                            == before[j],
                    classes_disjoint(eqs@, rr) ==> forall|i2: int|
                        0 <= i2 < i ==> sigma@[(#[trigger] cls@[i2]).flat(rr)] == next_in(cls@, i2),
                decreases len - i,
            {
                let from = cls[i];
                let to = cls[(i + 1) % len];
                proof {
                    assert(slot_ok(eqs@[c as int]@[i as int], rr));
                    assert(slot_ok(eqs@[c as int]@[(i as int + 1) % (len as int)], rr));
                    assert(from.flat(rr) < rr * 8) by (nonlinear_arith)
                        requires
                            from.spec_row() >= 1,
                            from.spec_row() <= rr,
                            from.spec_column() >= 1,
                            from.spec_column() <= 8,
                            from.flat(rr) == from.spec_row() - 1 + (from.spec_column() - 1) * rr,
                    ;
                    assert(from.flat(rr) >= 0) by (nonlinear_arith)
                        requires
                            from.spec_row() >= 1,
                            from.spec_column() >= 1,
                            rr > 0,
                            from.flat(rr) == from.spec_row() - 1 + (from.spec_column() - 1) * rr,
                    ;
                }
                let at = from.to_usize(rows);
                let ghost prev = sigma@;
                sigma.set(at, to);
                proof {
                    assert(from == cls@[i as int]);
                    assert(to == next_in(cls@, i as int));
                    assert(sigma@ == prev.update(at as int, to));
                    if classes_disjoint(eqs@, rr) {
                        assert forall|i2: int| 0 <= i2 < i + 1 implies sigma@[(#[trigger] cls@[i2]).flat(rr)] == next_in(cls@, i2) by {
                            assert(cls@[i2] == eqs@[c as int]@[i2]);
                            assert(slot_ok(eqs@[c as int]@[i2], rr));
                            lemma_flat_range(cls@[i2], rr);
                            if i2 < i {
                                assert(cls@[i as int] == eqs@[c as int]@[i as int]);
                                assert(cls@[i2].flat(rr) != cls@[i as int].flat(rr));
                                assert(prev[cls@[i2].flat(rr)] == next_in(cls@, i2));
                            } else {
                                assert(i2 == i);
                                assert(cls@[i2].flat(rr) == at);
                            }
                        }
                    }
                    assert forall|j: int|
                        #![trigger sigma@[j]]
                        0 <= j < n && (forall|i2: int| 0 <= i2 < i + 1 ==> (#[trigger] cls@[i2]).flat(rr) != j) implies sigma@[j]
                            == before[j] by {
                        assert(cls@[i as int].flat(rr) != j);
                        assert(forall|i2: int| 0 <= i2 < i ==> (#[trigger] cls@[i2]).flat(rr) != j);
                    }
                }
                i = i + 1;
            }
            proof {
                assert forall|j: int| 0 <= j < n && untouched(eqs@, rr, c + 1, j) implies is_cell(#[trigger] sigma@[j], j, rr) by {
                    assert(untouched(eqs@, rr, c as int, j));
                    assert forall|i2: int| 0 <= i2 < len implies (#[trigger] cls@[i2]).flat(rr) != j by {
                        assert(cls@[i2] == eqs@[c as int]@[i2]);
                    }
                }
                if classes_disjoint(eqs@, rr) {
                    assert forall|c2: int, i2: int|
                        0 <= c2 < c + 1 && 0 <= i2 < eqs@[c2]@.len() && eqs@[c2]@.len() > 1 implies sigma@[(
                        #[trigger] eqs@[c2]@[i2]).flat(rr)] == next_in(eqs@[c2]@, i2) by {
                        if c2 < c {
                            let j = eqs@[c2]@[i2].flat(rr);
                            assert forall|i3: int| 0 <= i3 < len implies (#[trigger] cls@[i3]).flat(rr) != j by {
                                assert(cls@[i3] == eqs@[c as int]@[i3]);
                            }
                            assert(slot_ok(eqs@[c2]@[i2], rr));
                            assert(0 <= j < n) by (nonlinear_arith)
                                requires
                                    j == eqs@[c2]@[i2].spec_row() - 1 + (eqs@[c2]@[i2].spec_column() - 1) * rr,
                                    1 <= eqs@[c2]@[i2].spec_row() <= rr,
                                    1 <= eqs@[c2]@[i2].spec_column() <= 8,
                                    n == rr * 8,
                            ;
                            assert(sigma@[j] == before[j]);
                        } else {
                            assert(eqs@[c2]@[i2] == cls@[i2]);
                        }
                    }
                }
            }
        } else {
            proof {
                assert forall|j: int| 0 <= j < n && untouched(eqs@, rr, c + 1, j) implies is_cell(#[trigger] sigma@[j], j, rr) by {
                    assert(untouched(eqs@, rr, c as int, j));
                }
            }
        }
        c = c + 1;
    }
    let mut ids_data: Vec<PastaFE> = Vec::new();
    let mut sig_data: Vec<PastaFE> = Vec::new();
    let mut k: usize = 0;
    while k < n
        invariant
            rows > 0,
            n == rows * 8,
            rr == rows,
            k <= n,
            sigma@.len() == n,
            forall|j: int| 0 <= j < n ==> slot_ok(#[trigger] sigma@[j], rr),
            ids_data@.len() == k,
            sig_data@.len() == k,
            forall|j: int| 0 <= j < k ==> (#[trigger] ids_data@[j]).in_field(fid) && ids_data@[j].v() == j + 1,
            forall|j: int| 0 <= j < k ==> (#[trigger] sig_data@[j]).in_field(fid) && sig_data@[j].v() == sigma@[j].flat(rr) + 1,
        decreases n - k,
    {
        proof {
            assert(k / rows < 8) by (nonlinear_arith)
                requires
                    k < rows * 8,
                    rows > 0,
            ;
            vstd::arithmetic::div_mod::lemma_fundamental_div_mod(k as int, rows as int);
            vstd::arithmetic::div_mod::lemma_mod_bound(k as int, rows as int);
        }
        let id = SlotId::from_usize(k, rows);
        let s = sigma[k];
        proof {
            let ki = k as int;
            assert(id.spec_row() + (id.spec_column() - 1) * rr == ki + 1) by (nonlinear_arith)
                requires
                    id.spec_row() == ki % rr + 1,
                    id.spec_column() == ki / rr + 1,
                    ki == rr * (ki / rr) + ki % rr,
            ;
            assert(slot_ok(sigma@[k as int], rr));
            assert(s.spec_row() + (s.spec_column() - 1) * rr <= 8 * rr) by (nonlinear_arith)
                requires
                    1 <= s.spec_row() <= rr,
                    1 <= s.spec_column() <= 8,
            ;
        }
        ids_data.push(id.to_scalar(rows, fid));
        sig_data.push(s.to_scalar(rows, fid));
        k = k + 1;
    }
    Sigma {
        sigma,
        ids: Table { cols: 8, rows, data: ids_data },
        sigmas: Table { cols: 8, rows, data: sig_data },
    }
}

/// The value of the cell at flat position `j` of a table of `rows` rows.
pub open spec fn cell_value(ws: Table, j: int, rows: int) -> int {
    ws.at(j / rows, j % rows).v()
}

/// A cell of the first eight columns is the cell at its flat position.
pub proof fn lemma_flat_cell(s: SlotId, rows: int)
    requires
        slot_ok(s, rows),
    ensures
        s.flat(rows) / rows == s.spec_column() - 1,
        s.flat(rows) % rows == s.spec_row() - 1,
{
    vstd::arithmetic::div_mod::lemma_fundamental_div_mod_converse(
        s.flat(rows),
        rows,
        s.spec_column() - 1,
        s.spec_row() - 1,
    );
}

/// In a trace whose copy constraints agree and whose copy lists name no
/// cell twice, as `TraceBuilder::trace` builds every trace, every cell of
/// the first eight columns holds the value of the cell that the copy
/// permutation of `build_sigma` sends it to.
pub proof fn lemma_permutation_preserves_values(tr: FieldTrace, f: PastaFieldId, sigma: Seq<SlotId>)
    requires
        tr.wf(f),
        copies_agree(tr),
        is_copy_permutation(tr.copy_constraints@, tr.rows as int, sigma),
        classes_disjoint(tr.copy_constraints@, tr.rows as int),
    ensures
        forall|j: int|
            0 <= j < tr.rows * 8 ==> cell_value(tr.ws, j, tr.rows as int) == slot_value(tr.ws, #[trigger] sigma[j]),
{
    let cc = tr.copy_constraints@;
    let rows = tr.rows as int;
    assert forall|j: int| 0 <= j < tr.rows * 8 implies cell_value(tr.ws, j, rows) == slot_value(
        tr.ws,
        #[trigger] sigma[j],
    ) by {
        if !untouched(cc, rows, cc.len() as int, j) {
            let (c, i) = choose|c: int, i: int|
                0 <= c < cc.len() && 0 <= i < cc[c]@.len() && cc[c]@.len() > 1 && (#[trigger] cc[c]@[i]).flat(rows) == j;
            let len = cc[c]@.len() as int;
            let k = (i + 1) % len;
            vstd::arithmetic::div_mod::lemma_mod_bound(i + 1, len);
            assert(sigma[cc[c]@[i].flat(rows)] == next_in(cc[c]@, i));
            assert(slot_value(tr.ws, cc[c]@[i]) == slot_value(tr.ws, cc[c]@[k]));
            assert(slot_ok(cc[c]@[i], rows));
            lemma_flat_cell(cc[c]@[i], rows);
        }
    }
}

} // verus!
