//! Support for inspecting a compact file: ordering its blocks by base id
//! and finding dangling references into the global property table.

use vstd::prelude::*;
use vstd::multiset::Multiset;
use crate::data::{ModernBlockData, ModernBlockDataView, ModernBlockList, PropertyValueView};
use crate::table::has_key;

verus! {

/// The views of a run of compact block records.
pub open spec fn data_views(s: Seq<ModernBlockData>) -> Seq<ModernBlockDataView> {
    Seq::new(s.len(), |i: int| s[i]@)
}

/// The records ordered by base id.
pub open spec fn sorted_by_base(s: Seq<ModernBlockDataView>) -> bool {
    forall|i: int, j: int| 0 <= i < j < s.len() ==> #[trigger] s[i].base_id
        <= #[trigger] s[j].base_id
}

/// Orders the block records by base id: the result holds exactly the given
/// records, by view, in nondecreasing base-id order.
pub fn sort_blocks_by_base(input: Vec<ModernBlockData>) -> (r: Vec<ModernBlockData>)
    ensures
        sorted_by_base(data_views(r@)),
        data_views(r@).to_multiset() == data_views(input@).to_multiset(),
{
    let ghost whole = data_views(input@);
    let mut rest = input;
    let mut out: Vec<ModernBlockData> = Vec::new();
    assert(data_views(out@) =~= Seq::empty());
    assert(data_views(out@).to_multiset().add(data_views(rest@).to_multiset())
        =~= whole.to_multiset()) by {
        assert(data_views(rest@) == whole);
        assert(data_views(out@) =~= Seq::<ModernBlockDataView>::empty());
        Seq::<ModernBlockDataView>::empty().to_multiset_ensures();
        assert(Seq::<ModernBlockDataView>::empty().to_multiset() =~= Multiset::empty());
    }
    while rest.len() > 0
        invariant
            sorted_by_base(data_views(out@)),
            data_views(out@).to_multiset().add(data_views(rest@).to_multiset())
                == whole.to_multiset(),
        decreases rest.len(),
    {
        let ghost rest_views = data_views(rest@);
        let x = match rest.pop() {
            Some(x) => x,
            None => {
                proof {
                    assert(false);
                }
                return out;
            },
        };
        proof {
            assert(data_views(rest@) =~= rest_views.drop_last());
            assert(rest_views.drop_last().push(rest_views.last()) =~= rest_views);
            rest_views.drop_last().to_multiset_ensures();
            assert(rest_views.drop_last().to_multiset().insert(rest_views.last())
                =~= rest_views.to_multiset());
            assert(x@ == rest_views.last());
        }
        // Find the first position whose base id exceeds the new record's.
        let ghost out_views = data_views(out@);
        let n = out.len();
        let mut pos: usize = 0;
        while pos < n && out[pos].base_id <= x.base_id
            invariant
                0 <= pos <= n,
                n == out.len(),
                out_views == data_views(out@),
                n == out_views.len(),
                forall|j: int| 0 <= j < pos ==> #[trigger] out_views[j].base_id <= x@.base_id,
            decreases n - pos,
        {
            assert(out_views[pos as int].base_id <= x@.base_id);
            pos = pos + 1;
        }
        proof {
            if (pos as int) < out_views.len() {
                assert(out_views[pos as int].base_id > x@.base_id);
            }
        }
        let ghost xv = x@;
        out.insert(pos, x);
        proof {
            assert(data_views(out@) =~= out_views.insert(pos as int, xv)) by {
                out_views.insert_ensures(pos as int, xv);
            }
            out_views.insert_ensures(pos as int, xv);
            let nv = data_views(out@);
            nv.to_multiset_ensures();
            assert(nv[pos as int] == xv);
            assert(nv.remove(pos as int) =~= out_views);
            assert(nv.remove(pos as int).to_multiset() =~= nv.to_multiset().remove(xv));
            assert(nv.to_multiset().contains(xv)) by {
                assert(nv[pos as int] == xv);
                assert(nv.contains(xv));
                nv.to_multiset_ensures();
            }
            assert(nv.to_multiset() =~= out_views.to_multiset().insert(xv));
            assert(sorted_by_base(nv)) by {
                assert forall|i: int, j: int| 0 <= i < j < nv.len() implies #[trigger] nv[i].base_id
                    <= #[trigger] nv[j].base_id by {
                    if i < pos as int && j == pos as int {
                        assert(nv[i] == out_views[i]);
                    } else if i == pos as int && j > pos as int {
                        assert(nv[j] == out_views[j - 1]);
                        assert(out_views[j - 1].base_id > xv.base_id);
                    } else if i < pos as int && j > pos as int {
                        assert(nv[i] == out_views[i] && nv[j] == out_views[j - 1]);
                    } else if i > pos as int {
                        assert(nv[i] == out_views[i - 1] && nv[j] == out_views[j - 1]);
                    }
                }
            }
        }
    }
    proof {
        assert(data_views(rest@) =~= Seq::empty());
        Seq::<ModernBlockDataView>::empty().to_multiset_ensures();
        assert(Seq::<ModernBlockDataView>::empty().to_multiset() =~= Multiset::empty()) by {
            Seq::<ModernBlockDataView>::empty().to_multiset_ensures();
        }
        assert(data_views(out@).to_multiset().add(Seq::<ModernBlockDataView>::empty().to_multiset())
            =~= data_views(out@).to_multiset());
    }
    out
}

/// A text marker of a compact block that references neither `"bool"` nor a
/// global-table entry.
pub open spec fn dangling_ref(
    table: Seq<(Seq<char>, Seq<Seq<char>>)>,
    v: PropertyValueView,
) -> bool {
    v matches PropertyValueView::Text(t) && t != "bool"@ && !has_key(table, t)
}

/// A dangling reference named `n` occurs at a position the scan has already
/// passed: in a block before `i`, or in block `i` before property `j`.
pub open spec fn dangling_in_prefix(
    lv: crate::data::ModernBlockListView,
    n: Seq<char>,
    i: int,
    j: int,
) -> bool {
    exists|bi: int, jj: int|
        0 <= bi < lv.blocks.len() && 0 <= jj < lv.blocks[bi].1.kinds.len() && (bi < i || (bi == i
            && jj < j)) && dangling_ref(lv.properties, #[trigger] lv.blocks[bi].1.kinds[jj].1)
            && lv.blocks[bi].1.kinds[jj].1 == PropertyValueView::Text(n)
}

/// Collects the names of every dangling reference of the compact file: the
/// result holds exactly the text markers of block properties that name
/// neither `"bool"` nor a global-table entry.
pub fn scan_unknown_properties(list: &ModernBlockList) -> (r: Vec<String>)
    ensures
        forall|n: Seq<char>| r.deep_view().contains(n) <==> dangling_in_prefix(
            list@,
            n,
            list@.blocks.len() as int,
            0,
        ),
{
    let ghost lv = list@;
    let mut out: Vec<String> = Vec::new();
    let nb = list.blocks.len();
    assert(out.deep_view() =~= Seq::<Seq<char>>::empty());
    let mut i: usize = 0;
    while i < nb
        invariant
            0 <= i <= nb,
            nb == list.blocks.len(),
            lv == list@,
            nb == lv.blocks.len(),
            forall|n: Seq<char>| out.deep_view().contains(n) <==> dangling_in_prefix(
                lv,
                n,
                i as int,
                0,
            ),
        decreases nb - i,
    {
        let data = &list.blocks[i].1;
        assert(data@ == lv.blocks[i as int].1);
        let nk = data.kinds.len();
        assert(nk == lv.blocks[i as int].1.kinds.len());
        let mut j: usize = 0;
        while j < nk
            invariant
                0 <= j <= nk,
                i < nb,
                nb == list.blocks.len(),
                lv == list@,
                nb == lv.blocks.len(),
                data == &list.blocks[i as int].1,
                nk == data.kinds.len(),
                nk == lv.blocks[i as int].1.kinds.len(),
                forall|n: Seq<char>| out.deep_view().contains(n) <==> dangling_in_prefix(
                    lv,
                    n,
                    i as int,
                    j as int,
                ),
            decreases nk - j,
        {
            let ghost kv = lv.blocks[i as int].1.kinds[j as int].1;
            let ghost before = out.deep_view();
            let mut pushed: bool = false;
            let ghost mut pushed_name: Seq<char> = Seq::empty();
            match &data.kinds[j].1 {
                crate::data::PropertyValue::Text(t) => {
                    assert(kv == PropertyValueView::Text(t@));
                    if !t.eq(&String::from_str("bool")) {
                        match list.find_property(t) {
                            Some(_) => {
                                assert(has_key(lv.properties, t@));
                                assert(!dangling_ref(lv.properties, kv));
                            },
                            None => {
                                assert(dangling_ref(lv.properties, kv));
                                out.push(t.clone());
                                pushed = true;
                                proof {
                                    pushed_name = t@;
                                    assert(out.deep_view() =~= before.push(t@));
                                }
                            },
                        }
                    } else {
                        assert(t@ == "bool"@);
                        assert(!dangling_ref(lv.properties, kv));
                    }
                },
                crate::data::PropertyValue::Range(_, _) => {
                    assert(!dangling_ref(lv.properties, kv));
                },
            }
            proof {
                if pushed {
                    assert(out.deep_view() == before.push(pushed_name));
                    assert(dangling_ref(lv.properties, kv) && kv == PropertyValueView::Text(
                        pushed_name,
                    ));
                } else {
                    assert(out.deep_view() == before);
                    assert(!dangling_ref(lv.properties, kv));
                }
                assert forall|n: Seq<char>| out.deep_view().contains(n) implies dangling_in_prefix(
                    lv,
                    n,
                    i as int,
                    j as int + 1,
                ) by {
                    let a = choose|a: int|
                        0 <= a < out.deep_view().len() && out.deep_view()[a] == n;
                    if a < before.len() {
                        assert(before[a] == n);
                        assert(before.contains(n));
                        assert(dangling_in_prefix(lv, n, i as int, j as int));
                        let (bi, jj) = choose|bi: int, jj: int|
                            0 <= bi < lv.blocks.len() && 0 <= jj < lv.blocks[bi].1.kinds.len() && (
                            bi < i as int || (bi == i as int && jj < j as int)) && dangling_ref(
                                lv.properties,
                                #[trigger] lv.blocks[bi].1.kinds[jj].1,
                            ) && lv.blocks[bi].1.kinds[jj].1 == PropertyValueView::Text(n);
                        assert(dangling_ref(lv.properties, lv.blocks[bi].1.kinds[jj].1));
                    } else {
                        assert(pushed && n == pushed_name);
                        assert(dangling_ref(lv.properties, lv.blocks[i as int].1.kinds[j as int].1));
                    }
                }
                assert forall|n: Seq<char>| dangling_in_prefix(lv, n, i as int, j as int + 1)
                    implies out.deep_view().contains(n) by {
                    let (bi, jj) = choose|bi: int, jj: int|
                        0 <= bi < lv.blocks.len() && 0 <= jj < lv.blocks[bi].1.kinds.len() && (bi
                            < i as int || (bi == i as int && jj < j as int + 1)) && dangling_ref(
                            lv.properties,
                            #[trigger] lv.blocks[bi].1.kinds[jj].1,
                        ) && lv.blocks[bi].1.kinds[jj].1 == PropertyValueView::Text(n);
                    if bi == i as int && jj == j as int {
                        assert(pushed && n == pushed_name);
                        assert(out.deep_view()[before.len() as int] == n);
                    } else {
                        assert(dangling_in_prefix(lv, n, i as int, j as int));
                        assert(before.contains(n));
                        let a = choose|a: int| 0 <= a < before.len() && before[a] == n;
                        assert(out.deep_view()[a] == n);
                    }
                }
            }
            j = j + 1;
        }
        proof {
            assert forall|n: Seq<char>| dangling_in_prefix(lv, n, i as int, nk as int)
                == dangling_in_prefix(lv, n, i as int + 1, 0) by {
                if dangling_in_prefix(lv, n, i as int, nk as int) {
                    let (bi, jj) = choose|bi: int, jj: int|
                        0 <= bi < lv.blocks.len() && 0 <= jj < lv.blocks[bi].1.kinds.len() && (bi
                            < i as int || (bi == i as int && jj < nk as int)) && dangling_ref(
                            lv.properties,
                            #[trigger] lv.blocks[bi].1.kinds[jj].1,
                        ) && lv.blocks[bi].1.kinds[jj].1 == PropertyValueView::Text(n);
                    assert(bi < i as int + 1);
                    assert(dangling_in_prefix(lv, n, i as int + 1, 0));
                }
                if dangling_in_prefix(lv, n, i as int + 1, 0) {
                    let (bi, jj) = choose|bi: int, jj: int|
                        0 <= bi < lv.blocks.len() && 0 <= jj < lv.blocks[bi].1.kinds.len() && (bi
                            < i as int + 1 || (bi == i as int + 1 && jj < 0)) && dangling_ref(
                            lv.properties,
                            #[trigger] lv.blocks[bi].1.kinds[jj].1,
                        ) && lv.blocks[bi].1.kinds[jj].1 == PropertyValueView::Text(n);
                    if bi == i as int {
                        assert(jj < nk as int);
                    }
                    assert(dangling_in_prefix(lv, n, i as int, nk as int));
                }
            }
        }
        i = i + 1;
    }
    out
}

/// The number of states one compact property value stands for: the width
/// of an inclusive range (zero when the bounds are reversed), two for the
/// Boolean marker, the value count of the referenced global-table entry, or
/// one for a dangling reference.
pub open spec fn size_of_value(
    table: Seq<(Seq<char>, Seq<Seq<char>>)>,
    v: PropertyValueView,
) -> int {
    match v {
        PropertyValueView::Range(lo, hi) => if lo <= hi {
            hi - lo + 1
        } else {
            0
        },
        PropertyValueView::Text(t) => if t == "bool"@ {
            2
        } else if has_key(table, t) {
            crate::table::value_of(table, t).len() as int
        } else {
            1
        },
    }
}

/// The product of the property sizes of a compact block from position `j`
/// on.
pub open spec fn size_prod_from(
    table: Seq<(Seq<char>, Seq<Seq<char>>)>,
    kinds: Seq<(Seq<char>, PropertyValueView)>,
    j: int,
) -> int
    decreases kinds.len() - j,
{
    if j < 0 || j >= kinds.len() {
        1
    } else {
        size_of_value(table, kinds[j].1) * size_prod_from(table, kinds, j + 1)
    }
}

/// The number of states a compact block stands for.
pub open spec fn block_size(
    table: Seq<(Seq<char>, Seq<Seq<char>>)>,
    kinds: Seq<(Seq<char>, PropertyValueView)>,
) -> int {
    size_prod_from(table, kinds, 0)
}

proof fn lemma_size_prod_zero(
    table: Seq<(Seq<char>, Seq<Seq<char>>)>,
    kinds: Seq<(Seq<char>, PropertyValueView)>,
    i: int,
    j: int,
)
    requires
        0 <= j <= i < kinds.len(),
        size_of_value(table, kinds[i].1) == 0,
    ensures
        size_prod_from(table, kinds, j) == 0,
    decreases i - j,
{
    if j < i {
        lemma_size_prod_zero(table, kinds, i, j + 1);
    }
}

proof fn lemma_size_prod_pos(
    table: Seq<(Seq<char>, Seq<Seq<char>>)>,
    kinds: Seq<(Seq<char>, PropertyValueView)>,
    j: int,
)
    requires
        forall|k: int| j <= k < kinds.len() ==> size_of_value(table, #[trigger] kinds[k].1) >= 1,
    ensures
        size_prod_from(table, kinds, j) >= 1,
    decreases kinds.len() - j,
{
    if 0 <= j < kinds.len() {
        lemma_size_prod_pos(table, kinds, j + 1);
        assert(size_of_value(table, kinds[j].1) * size_prod_from(table, kinds, j + 1) >= 1)
            by (nonlinear_arith)
            requires
                size_of_value(table, kinds[j].1) >= 1,
                size_prod_from(table, kinds, j + 1) >= 1,
        ;
    }
}

fn value_size(list: &ModernBlockList, value: &crate::data::PropertyValue) -> (r: u64)
    ensures
        r as int == size_of_value(list@.properties, value@),
{
    match value {
        crate::data::PropertyValue::Range(lo, hi) => {
            if hi >= lo {
                (*hi as u64) - (*lo as u64) + 1
            } else {
                0
            }
        },
        crate::data::PropertyValue::Text(t) => {
            if t.eq(&String::from_str("bool")) {
                2
            } else {
                match list.find_property(t) {
                    Some(prop) => prop.value_count() as u64,
                    None => 1,
                }
            }
        },
    }
}

/// The number of states a compact block stands for, or `None` when that
/// product does not fit 64 bits.
fn exec_block_size(list: &ModernBlockList, data: &ModernBlockData) -> (r: Option<u64>)
    ensures
        r matches Some(c) ==> c as int == block_size(list@.properties, data@.kinds),
        r is None ==> block_size(list@.properties, data@.kinds) > u64::MAX,
{
    let ghost table = list@.properties;
    let ghost kinds = data@.kinds;
    let n = data.kinds.len();
    let mut i: usize = 0;
    while i < n
        invariant
            0 <= i <= n,
            n == data.kinds.len(),
            table == list@.properties,
            kinds == data@.kinds,
            n == kinds.len(),
            forall|k: int| 0 <= k < i ==> size_of_value(table, #[trigger] kinds[k].1) >= 1,
        decreases n - i,
    {
        if value_size(list, &data.kinds[i].1) == 0 {
            proof {
                lemma_size_prod_zero(table, kinds, i as int, 0);
            }
            return Some(0);
        }
        assert(size_of_value(table, kinds[i as int].1) >= 1);
        i = i + 1;
    }
    let mut acc: u64 = 1;
    let mut j: usize = 0;
    while j < n
        invariant
            0 <= j <= n,
            n == data.kinds.len(),
            table == list@.properties,
            kinds == data@.kinds,
            n == kinds.len(),
            acc >= 1,
            forall|k: int| 0 <= k < n ==> size_of_value(table, #[trigger] kinds[k].1) >= 1,
            acc as int * size_prod_from(table, kinds, j as int) == block_size(table, kinds),
        decreases n - j,
    {
        let sz = value_size(list, &data.kinds[j].1);
        match acc.checked_mul(sz) {
            Some(next) => {
                proof {
                    assert(next as int * size_prod_from(table, kinds, j as int + 1) == acc as int
                        * size_prod_from(table, kinds, j as int) && next >= 1) by (nonlinear_arith)
                        requires
                            next as int == acc as int * sz as int,
                            acc >= 1,
                            sz >= 1,
                            size_prod_from(table, kinds, j as int) == sz as int * size_prod_from(
                                table,
                                kinds,
                                j as int + 1,
                            ),
                    ;
                }
                acc = next;
            },
            None => {
                proof {
                    lemma_size_prod_pos(table, kinds, j as int + 1);
                    assert(block_size(table, kinds) > u64::MAX) by (nonlinear_arith)
                        requires
                            acc as int * sz as int > u64::MAX,
                            size_prod_from(table, kinds, j as int + 1) >= 1,
                            size_prod_from(table, kinds, j as int) == sz as int * size_prod_from(
                                table,
                                kinds,
                                j as int + 1,
                            ),
                            acc as int * size_prod_from(table, kinds, j as int) == block_size(
                                table,
                                kinds,
                            ),
                            acc >= 1,
                            sz >= 1,
                    ;
                }
                return None;
            },
        }
        j = j + 1;
    }
    Some(acc)
}

/// The id gaps of a walk over the records from position `i` on, with the
/// running counter at `counter`: whenever the counter misses the next base
/// id, the pair `(counter, base)` is reported and the counter realigns; each
/// block then advances the counter by its size.
pub open spec fn walk_gaps(
    blocks: Seq<ModernBlockDataView>,
    table: Seq<(Seq<char>, Seq<Seq<char>>)>,
    i: int,
    counter: int,
) -> Seq<(int, int)>
    decreases blocks.len() - i,
{
    if i < 0 || i >= blocks.len() {
        Seq::empty()
    } else {
        let b = blocks[i].base_id;
        let rest = walk_gaps(blocks, table, i + 1, b + block_size(table, blocks[i].kinds));
        if counter != b {
            seq![(counter, b)] + rest
        } else {
            rest
        }
    }
}

/// Every counter of the walk stays within 64 signed bits.
pub open spec fn counters_bounded(
    blocks: Seq<ModernBlockDataView>,
    table: Seq<(Seq<char>, Seq<Seq<char>>)>,
) -> bool {
    forall|i: int| 0 <= i < blocks.len() ==> (#[trigger] blocks[i]).base_id + block_size(
        table,
        blocks[i].kinds,
    ) <= i64::MAX
}

/// The view of a gap list.
pub open spec fn gaps_view(v: Seq<(i64, i64)>) -> Seq<(int, int)> {
    Seq::new(v.len(), |i: int| (v[i].0 as int, v[i].1 as int))
}

/// Walks the records — expected in base-id order — and reports every id
/// range that no record covers, as `walk_gaps` states; `None` exactly when
/// some counter of the walk leaves 64 signed bits.
pub fn coverage_gaps(sorted: &Vec<ModernBlockData>, list: &ModernBlockList) -> (r: Option<
    Vec<(i64, i64)>,
>)
    ensures
        r is Some <==> counters_bounded(data_views(sorted@), list@.properties),
        r matches Some(gaps) ==> gaps_view(gaps@) == walk_gaps(
            data_views(sorted@),
            list@.properties,
            0,
            0,
        ),
{
    let ghost views = data_views(sorted@);
    let ghost table = list@.properties;
    let mut out: Vec<(i64, i64)> = Vec::new();
    let mut counter: i64 = 0;
    let n = sorted.len();
    assert(gaps_view(out@) =~= Seq::empty());
    let mut i: usize = 0;
    while i < n
        invariant
            0 <= i <= n,
            n == sorted.len(),
            views == data_views(sorted@),
            table == list@.properties,
            n == views.len(),
            walk_gaps(views, table, 0, 0) == gaps_view(out@) + walk_gaps(
                views,
                table,
                i as int,
                counter as int,
            ),
            forall|k: int| 0 <= k < i ==> (#[trigger] views[k]).base_id + block_size(
                table,
                views[k].kinds,
            ) <= i64::MAX,
        decreases n - i,
    {
        let ghost out_before = gaps_view(out@);
        let b: i64 = sorted[i].base_id as i64;
        assert(b as int == views[i as int].base_id);
        if counter != b {
            out.push((counter, b));
            assert(gaps_view(out@) =~= out_before.push((counter as int, b as int)));
        }
        let size = match exec_block_size(list, &sorted[i]) {
            Some(size) => size,
            None => {
                proof {
                    assert(views[i as int].base_id + block_size(table, views[i as int].kinds)
                        > i64::MAX);
                }
                return None;
            },
        };
        let next: i128 = (b as i128) + (size as i128);
        if next > (i64::MAX as i128) {
            proof {
                assert(views[i as int].base_id + block_size(table, views[i as int].kinds)
                    > i64::MAX);
            }
            return None;
        }
        proof {
            assert(out_before + walk_gaps(views, table, i as int, counter as int) == gaps_view(
                out@,
            ) + walk_gaps(
                views,
                table,
                i as int + 1,
                views[i as int].base_id + block_size(table, views[i as int].kinds),
            )) by {
                if counter as int != views[i as int].base_id {
                    assert(walk_gaps(views, table, i as int, counter as int) == seq![
                        (counter as int, b as int),
                    ] + walk_gaps(
                        views,
                        table,
                        i as int + 1,
                        views[i as int].base_id + block_size(table, views[i as int].kinds),
                    ));
                    assert(out_before + (seq![(counter as int, b as int)] + walk_gaps(
                        views,
                        table,
                        i as int + 1,
                        views[i as int].base_id + block_size(table, views[i as int].kinds),
                    )) =~= out_before.push((counter as int, b as int)) + walk_gaps(
                        views,
                        table,
                        i as int + 1,
                        views[i as int].base_id + block_size(table, views[i as int].kinds),
                    ));
                }
            }
        }
        assert(next >= i32::MIN as i128);
        counter = next as i64;
        assert(counter as int == views[i as int].base_id + block_size(
            table,
            views[i as int].kinds,
        ));
        i = i + 1;
    }
    proof {
        assert(walk_gaps(views, table, n as int, counter as int) =~= Seq::empty());
        assert(gaps_view(out@) + Seq::<(int, int)>::empty() =~= gaps_view(out@));
    }
    Some(out)
}

} // verus!
