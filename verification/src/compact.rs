//! The compactor: walks the raw blocks in input order, verifies every
//! state's id, accumulates the deduplicated global property table, and
//! produces one compact record per block.

use vstd::prelude::*;
use crate::collisions::{blocks_all_classify, classify_error, detect_collisions, enum_pairs,
    enum_pairs_of_block, name_collision_exists, EnumPair};
use crate::data::{blocks_view, kinds_view, table_view, ModernBlockData, ModernBlockList,
    ModernBlockListView, PropertyValue, PropertyValueView};
use crate::errors::{BuildError, CompactError};
use crate::identifier::IdentifierView;
use crate::metadata::{MetaData, MetaDataView};
use crate::property::{classify_spec, EnumProperty, PropertyKind, PropertyKindView};
use crate::raw::{classified_props, kind_pairs_view, RawBlockDataView, RawBlockList};
use crate::rules::{final_name_spec, rules_view, transform_entry, ModernPropertyRules, RulesView};
use crate::states::{block_check, verify_block};
use crate::table::{has_key, key_index, lemma_collision_iff, lemma_key_index};

verus! {

/// A property name after the fixed `"type"` to `"kind"` normalization alone.
pub open spec fn type_normalized(name: Seq<char>) -> Seq<char> {
    if name == "type"@ {
        "kind"@
    } else {
        name
    }
}

/// The compact property list of one block: each classified declared
/// property, in declared order, under its normalized name; Boolean and
/// integer-range kinds read inline, an enumeration reads as a reference to
/// the global table under its final name.
pub open spec fn block_kinds(
    props: Seq<(Seq<char>, Seq<Seq<char>>)>,
    rv: Option<RulesView>,
) -> Seq<(Seq<char>, PropertyValueView)> {
    let cp = classified_props(props);
    Seq::new(
        cp.len(),
        |j: int|
            (
                type_normalized(cp[j].0),
                match cp[j].1 {
                    PropertyKindView::Bool => PropertyValueView::Text("bool"@),
                    PropertyKindView::Int(lo, hi) => PropertyValueView::Range(lo, hi),
                    PropertyKindView::Enum(_) => PropertyValueView::Text(
                        final_name_spec(rv, cp[j].0, cp[j].1),
                    ),
                },
            ),
    )
}

/// Adds one enumerated property to the global table: a fresh final name is
/// appended; a name already present is left as it stands.
pub open spec fn table_insert(
    table: Seq<(Seq<char>, Seq<Seq<char>>)>,
    n: Seq<char>,
    p: Seq<Seq<char>>,
) -> Seq<(Seq<char>, Seq<Seq<char>>)> {
    if has_key(table, n) {
        table
    } else {
        table.push((n, p))
    }
}

/// Extends the global table with a run of observations, in order.
pub open spec fn extend_table(
    table: Seq<(Seq<char>, Seq<Seq<char>>)>,
    pairs: Seq<EnumPair>,
) -> Seq<(Seq<char>, Seq<Seq<char>>)>
    decreases pairs.len(),
{
    if pairs.len() == 0 {
        table
    } else {
        table_insert(extend_table(table, pairs.drop_last()), pairs.last().0, pairs.last().1)
    }
}

/// The global property table of a whole run: every transformed enumerated
/// property of every block, inserted in input order, first binding kept.
pub open spec fn global_table(
    blocks: Seq<(IdentifierView, RawBlockDataView)>,
    rv: Option<RulesView>,
) -> Seq<(Seq<char>, Seq<Seq<char>>)> {
    extend_table(Seq::empty(), enum_pairs(blocks, rv))
}

/// What an extended table holds: its old entries unchanged, plus one entry
/// for each fresh final name among the observations, bound to the
/// enumeration of that name's first occurrence.
pub proof fn lemma_extend_table_membership(
    table: Seq<(Seq<char>, Seq<Seq<char>>)>,
    pairs: Seq<EnumPair>,
)
    requires
        crate::table::keys_unique(table),
    ensures
        crate::table::keys_unique(extend_table(table, pairs)),
        forall|n: Seq<char>|
            #![trigger has_key(extend_table(table, pairs), n)]
            has_key(extend_table(table, pairs), n) <==> (has_key(table, n) || has_key(pairs, n)),
        forall|n: Seq<char>|
            #![trigger crate::table::value_of(extend_table(table, pairs), n)]
            has_key(table, n) ==> crate::table::value_of(extend_table(table, pairs), n)
                == crate::table::value_of(table, n),
        forall|n: Seq<char>|
            #![trigger crate::table::value_of(extend_table(table, pairs), n)]
            !has_key(table, n) && has_key(pairs, n) ==> crate::table::value_of(
                extend_table(table, pairs),
                n,
            ) == crate::table::value_of(pairs, n),
    decreases pairs.len(),
{
    if pairs.len() > 0 {
        let dl = pairs.drop_last();
        lemma_extend_table_membership(table, dl);
        let prev = extend_table(table, dl);
        let cur = extend_table(table, pairs);
        let nl = pairs.last().0;
        let pl = pairs.last().1;
        assert(forall|j: int| 0 <= j < dl.len() ==> #[trigger] dl[j] == pairs[j]);
        assert(cur == table_insert(prev, nl, pl));
        // Keys of the pair run with and without its last observation.
        assert forall|n: Seq<char>| has_key(pairs, n) implies (has_key(dl, n) || n == nl) by {
            let j = choose|j: int| 0 <= j < pairs.len() && #[trigger] pairs[j].0 == n;
            if j < pairs.len() - 1 {
                assert(dl[j].0 == n);
            }
        }
        assert forall|n: Seq<char>| has_key(dl, n) implies has_key(pairs, n) by {
            let j = choose|j: int| 0 <= j < dl.len() && #[trigger] dl[j].0 == n;
            assert(pairs[j].0 == n);
        }
        assert(has_key(pairs, nl)) by {
            assert(pairs[pairs.len() - 1].0 == nl);
        }
        if has_key(prev, nl) {
            assert(cur == prev);
            assert forall|n: Seq<char>|
                !has_key(table, n) && has_key(pairs, n) implies crate::table::value_of(cur, n)
                == crate::table::value_of(pairs, n) by {
                crate::table::lemma_key_index(pairs, n);
                crate::table::lemma_key_index(dl, n);
                if n == nl && !has_key(dl, n) {
                    // The fresh name must already stand in the table side.
                    assert(has_key(prev, n) && !has_key(table, n) && !has_key(dl, n));
                } else {
                    assert(has_key(dl, n));
                    assert(crate::table::key_index(pairs, n) == crate::table::key_index(dl, n))
                        by {
                        let a = crate::table::key_index(pairs, n);
                        let b = crate::table::key_index(dl, n);
                        assert(pairs[a].0 == n && dl[b].0 == n);
                        if a < b {
                            assert(dl[a].0 != n);
                            assert(a < dl.len());
                            assert(pairs[a].0 == dl[a].0);
                        }
                        if b < a {
                            assert(pairs[b].0 != n);
                            assert(pairs[b].0 == dl[b].0);
                        }
                    }
                    assert(crate::table::value_of(pairs, n) == crate::table::value_of(dl, n));
                }
            }
        } else {
            assert(cur == prev.push((nl, pl)));
            crate::table::lemma_key_index(prev, nl);
            assert(crate::table::keys_unique(cur)) by {
                assert forall|i: int, j: int| 0 <= i < j < cur.len() implies #[trigger] cur[i].0
                    != #[trigger] cur[j].0 by {
                    if j == cur.len() - 1 {
                        assert(cur[i] == prev[i]);
                        assert(has_key(prev, prev[i].0));
                    } else {
                        assert(cur[i] == prev[i] && cur[j] == prev[j]);
                    }
                }
            }
            assert forall|n: Seq<char>| has_key(cur, n) implies (has_key(table, n) || has_key(
                pairs,
                n,
            )) by {
                let i = choose|i: int| 0 <= i < cur.len() && #[trigger] cur[i].0 == n;
                if i < cur.len() - 1 {
                    assert(prev[i].0 == n);
                    assert(has_key(prev, n));
                } else {
                    assert(n == nl);
                }
            }
            assert forall|n: Seq<char>| (has_key(table, n) || has_key(pairs, n)) implies has_key(
                cur,
                n,
            ) by {
                if has_key(table, n) || has_key(dl, n) {
                    assert(has_key(prev, n));
                    let i = choose|i: int| 0 <= i < prev.len() && #[trigger] prev[i].0 == n;
                    assert(cur[i] == prev[i]);
                    assert(cur[i].0 == n);
                } else {
                    assert(n == nl);
                    assert(cur[cur.len() - 1].0 == n);
                }
            }
            // Known keys keep their bindings across the push.
            assert forall|n: Seq<char>| has_key(prev, n) implies crate::table::value_of(cur, n)
                == crate::table::value_of(prev, n) by {
                crate::table::lemma_key_index(prev, n);
                crate::table::lemma_key_index(cur, n);
                let a = crate::table::key_index(prev, n);
                assert(cur[a].0 == n);
                assert(crate::table::key_index(cur, n) == a) by {
                    let b = crate::table::key_index(cur, n);
                    if b < a {
                        assert(prev[b].0 != n);
                        assert(cur[b].0 == prev[b].0);
                    }
                    if b > a {
                        assert(cur[a].0 == n);
                    }
                }
                assert(cur[a] == prev[a]);
            }
            assert forall|n: Seq<char>|
                !has_key(table, n) && has_key(pairs, n) implies crate::table::value_of(cur, n)
                == crate::table::value_of(pairs, n) by {
                crate::table::lemma_key_index(pairs, n);
                crate::table::lemma_key_index(dl, n);
                if has_key(dl, n) {
                    assert(crate::table::key_index(pairs, n) == crate::table::key_index(dl, n))
                        by {
                        let a = crate::table::key_index(pairs, n);
                        let b = crate::table::key_index(dl, n);
                        assert(pairs[a].0 == n && dl[b].0 == n);
                        if a < b {
                            assert(dl[a].0 != n);
                            assert(a < dl.len());
                            assert(pairs[a].0 == dl[a].0);
                        }
                        if b < a {
                            assert(pairs[b].0 != n);
                            assert(pairs[b].0 == dl[b].0);
                        }
                    }
                    assert(crate::table::value_of(pairs, n) == crate::table::value_of(dl, n));
                    assert(has_key(prev, n));
                } else {
                    assert(n == nl);
                    // The last observation is the name's first occurrence.
                    assert(crate::table::key_index(pairs, n) == pairs.len() - 1) by {
                        let a = crate::table::key_index(pairs, n);
                        if a < pairs.len() - 1 {
                            assert(dl[a].0 == n);
                        }
                    }
                    assert(crate::table::value_of(pairs, n) == pl);
                    assert(!has_key(prev, n));
                    crate::table::lemma_key_index(cur, n);
                    assert(crate::table::key_index(cur, n) == cur.len() - 1) by {
                        let b = crate::table::key_index(cur, n);
                        if b < cur.len() - 1 {
                            assert(prev[b].0 == n);
                        }
                    }
                    assert(crate::table::value_of(cur, n) == pl);
                }
            }
        }
    }
}

/// What the global table holds: exactly the final names of the input's
/// enumerated properties, no name twice, each bound to the value list of
/// its first occurrence in input order.
pub proof fn lemma_global_table_membership(
    blocks: Seq<(IdentifierView, RawBlockDataView)>,
    rv: Option<RulesView>,
)
    ensures
        crate::table::keys_unique(global_table(blocks, rv)),
        forall|n: Seq<char>|
            #![trigger has_key(global_table(blocks, rv), n)]
            has_key(global_table(blocks, rv), n) <==> has_key(enum_pairs(blocks, rv), n),
        forall|n: Seq<char>|
            #![trigger crate::table::value_of(global_table(blocks, rv), n)]
            has_key(enum_pairs(blocks, rv), n) ==> crate::table::value_of(
                global_table(blocks, rv),
                n,
            ) == crate::table::value_of(enum_pairs(blocks, rv), n),
{
    lemma_extend_table_membership(Seq::empty(), enum_pairs(blocks, rv));
    assert forall|n: Seq<char>| !has_key(Seq::<(Seq<char>, Seq<Seq<char>>)>::empty(), n) by {
        if has_key(Seq::<(Seq<char>, Seq<Seq<char>>)>::empty(), n) {
            let i = choose|i: int|
                0 <= i < Seq::<(Seq<char>, Seq<Seq<char>>)>::empty().len()
                    && #[trigger] Seq::<(Seq<char>, Seq<Seq<char>>)>::empty()[i].0 == n;
        }
    }
}

/// Extending with concatenated observations is extending twice.
proof fn lemma_extend_table_concat(
    table: Seq<(Seq<char>, Seq<Seq<char>>)>,
    a: Seq<EnumPair>,
    b: Seq<EnumPair>,
)
    ensures
        extend_table(table, a + b) == extend_table(extend_table(table, a), b),
    decreases b.len(),
{
    if b.len() == 0 {
        assert(a + b =~= a);
    } else {
        lemma_extend_table_concat(table, a, b.drop_last());
        assert((a + b).drop_last() =~= a + b.drop_last());
        assert((a + b).last() == b.last());
    }
}

/// The enumerated observations of a block, read off its classified
/// properties.
pub open spec fn enum_pairs_of_classified(
    cp: Seq<(Seq<char>, PropertyKindView)>,
    rv: Option<RulesView>,
) -> Seq<EnumPair>
    decreases cp.len(),
{
    if cp.len() == 0 {
        Seq::empty()
    } else {
        let rest = enum_pairs_of_classified(cp.drop_last(), rv);
        match cp.last().1 {
            PropertyKindView::Enum(p) => rest.push(
                (final_name_spec(rv, cp.last().0, cp.last().1), p),
            ),
            _ => rest,
        }
    }
}

/// Reading the observations off the classified properties agrees with
/// reading them off the raw declarations.
proof fn lemma_pairs_of_classified(props: Seq<(Seq<char>, Seq<Seq<char>>)>, rv: Option<RulesView>)
    ensures
        enum_pairs_of_classified(classified_props(props), rv) == enum_pairs_of_block(props, rv),
    decreases props.len(),
{
    if props.len() > 0 {
        lemma_pairs_of_classified(props.drop_last(), rv);
        let cp = classified_props(props);
        let cpp = classified_props(props.drop_last());
        match classify_spec(props.last().1) {
            Ok(k) => {
                assert(cp == cpp.push((props.last().0, k)));
                assert(cp.drop_last() =~= cpp);
                assert(cp.last() == (props.last().0, k));
            },
            Err(_) => {
                assert(cp == cpp);
                if cp.len() > 0 {
                    assert(cp.last() == cpp.last());
                    assert(cp.drop_last() =~= cpp.drop_last());
                }
            },
        }
    }
}

/// Index of the first block at or after `i` that fails verification, or the
/// block count when all pass.
pub open spec fn first_invalid_block(
    blocks: Seq<(IdentifierView, RawBlockDataView)>,
    i: int,
) -> int
    decreases blocks.len() - i,
{
    if i < 0 || i >= blocks.len() {
        blocks.len() as int
    } else if block_check(blocks[i].1) is Err {
        i
    } else {
        first_invalid_block(blocks, i + 1)
    }
}

proof fn lemma_first_invalid_block(blocks: Seq<(IdentifierView, RawBlockDataView)>, i: int)
    requires
        0 <= i <= blocks.len(),
    ensures
        i <= first_invalid_block(blocks, i) <= blocks.len(),
        forall|j: int| i <= j < first_invalid_block(blocks, i) ==> block_check(
            #[trigger] blocks[j].1,
        ) is Ok,
        first_invalid_block(blocks, i) < blocks.len() ==> block_check(
            blocks[first_invalid_block(blocks, i)].1,
        ) is Err,
    decreases blocks.len() - i,
{
    if i < blocks.len() && block_check(blocks[i].1) is Ok {
        lemma_first_invalid_block(blocks, i + 1);
    }
}

/// Every block verifies.
pub open spec fn all_blocks_valid(blocks: Seq<(IdentifierView, RawBlockDataView)>) -> bool {
    forall|i: int| 0 <= i < blocks.len() ==> block_check(#[trigger] blocks[i].1) is Ok
}

/// What a successful compaction yields, block for block: the metadata as
/// given; the keys in input order; per block, the base and default ids that
/// verification extracted and the compact property list; and the global
/// table accumulated over the whole input.
pub open spec fn compact_output_ok(
    out: ModernBlockListView,
    blocks: Seq<(IdentifierView, RawBlockDataView)>,
    rv: Option<RulesView>,
    md: Option<MetaDataView>,
) -> bool {
    &&& out.metadata == md
    &&& out.blocks.len() == blocks.len()
    &&& forall|i: int| 0 <= i < blocks.len() ==> #[trigger] out.blocks[i].0 == blocks[i].0
    &&& forall|i: int| 0 <= i < blocks.len() ==> block_check(#[trigger] blocks[i].1) is Ok
        && out.blocks[i].1.base_id == block_check(blocks[i].1)->Ok_0.0
        && out.blocks[i].1.default_id == block_check(blocks[i].1)->Ok_0.1
    &&& forall|i: int| 0 <= i < blocks.len() ==> #[trigger] out.blocks[i].1.kinds == block_kinds(
        blocks[i].1.props,
        rv,
    )
    &&& out.properties == global_table(blocks, rv)
}

/// A compact output is self-consistent: no block property references a
/// name the global table lacks. Every text marker other than `"bool"` in a
/// block's property list names a global-table entry.
pub proof fn lemma_compact_refs_resolve(
    out: ModernBlockListView,
    blocks: Seq<(IdentifierView, RawBlockDataView)>,
    rv: Option<RulesView>,
    md: Option<MetaDataView>,
    i: int,
    j: int,
)
    requires
        compact_output_ok(out, blocks, rv, md),
        0 <= i < blocks.len(),
        0 <= j < out.blocks[i].1.kinds.len(),
    ensures
        !crate::info::dangling_ref(out.properties, out.blocks[i].1.kinds[j].1),
{
    let props = blocks[i].1.props;
    let cp = classified_props(props);
    assert(out.blocks[i].1.kinds == block_kinds(props, rv));
    match cp[j].1 {
        PropertyKindView::Enum(p) => {
            let n = final_name_spec(rv, cp[j].0, cp[j].1);
            assert(out.blocks[i].1.kinds[j].1 == PropertyValueView::Text(n));
            if n != "bool"@ {
                crate::raw::lemma_classified_member(props, j);
                let k = choose|k: int|
                    0 <= k < props.len() && classify_spec(#[trigger] props[k].1) == Ok::<
                        PropertyKindView,
                        crate::property::PropertyKindParseError,
                    >(cp[j].1) && props[k].0 == cp[j].0;
                assert(crate::collisions::enum_occurs(blocks, rv, n, p)) by {
                    assert(classify_spec(blocks[i].1.props[k].1) == Ok::<
                        PropertyKindView,
                        crate::property::PropertyKindParseError,
                    >(PropertyKindView::Enum(p)));
                    assert(final_name_spec(rv, blocks[i].1.props[k].0, PropertyKindView::Enum(p))
                        == n);
                }
                crate::collisions::lemma_occurs_iff(blocks, rv, n, p);
                assert(enum_pairs(blocks, rv).contains((n, p)));
                assert(has_key(enum_pairs(blocks, rv), n)) by {
                    let idx = choose|idx: int|
                        0 <= idx < enum_pairs(blocks, rv).len() && enum_pairs(blocks, rv)[idx]
                            == (n, p);
                    assert(enum_pairs(blocks, rv)[idx].0 == n);
                }
                lemma_global_table_membership(blocks, rv);
                assert(has_key(global_table(blocks, rv), n));
                assert(out.properties == global_table(blocks, rv));
            }
        },
        PropertyKindView::Bool => {
            assert(out.blocks[i].1.kinds[j].1 == PropertyValueView::Text("bool"@));
        },
        PropertyKindView::Int(lo, hi) => {
            assert(out.blocks[i].1.kinds[j].1 == PropertyValueView::Range(lo, hi));
        },
    }
}

/// Compaction is lossless for the ids: each compact block's base id is
/// exactly the id of the raw block's first declared state, and its default
/// id is exactly the last flagged default — present if and only if that
/// default differs from the base id, and absent when no state is flagged.
pub proof fn lemma_compact_preserves_ids(
    out: ModernBlockListView,
    blocks: Seq<(IdentifierView, RawBlockDataView)>,
    rv: Option<RulesView>,
    md: Option<MetaDataView>,
    i: int,
)
    requires
        compact_output_ok(out, blocks, rv, md),
        0 <= i < blocks.len(),
    ensures
        out.blocks[i].1.base_id == blocks[i].1.states[0].id,
        out.blocks[i].1.default_id == crate::states::default_spec(
            blocks[i].1.states,
            blocks[i].1.states[0].id,
        ),
        (match crate::states::last_default(blocks[i].1.states) {
            Some(d) => out.blocks[i].1.default_id == (if d != blocks[i].1.states[0].id {
                Some(d)
            } else {
                None::<int>
            }),
            None => out.blocks[i].1.default_id is None,
        }),
{
    assert(block_check(blocks[i].1) is Ok);
    crate::states::lemma_verified_state_count(blocks[i].1);
}

fn insert_table(table: &mut Vec<(String, EnumProperty)>, name: &String, prop: EnumProperty)
    ensures
        table_view(final(table)@) == table_insert(table_view(old(table)@), name@, prop@),
{
    let ghost tv = table_view(table@);
    let n = table.len();
    let mut i: usize = 0;
    while i < n
        invariant
            0 <= i <= n,
            n == table.len(),
            tv == table_view(table@),
            table@ == old(table)@,
            n == tv.len(),
            forall|j: int| 0 <= j < i ==> #[trigger] tv[j].0 != name@,
        decreases n - i,
    {
        if table[i].0.eq(name) {
            assert(tv[i as int].0 == name@);
            assert(has_key(tv, name@));
            return ;
        }
        i = i + 1;
    }
    proof {
        assert(!has_key(tv, name@));
    }
    table.push((name.clone(), prop));
    proof {
        assert(table_view(table@) =~~= tv.push((name@, prop@)));
    }
}

/// Compacts verified raw input, as `compact_output_ok` states: every block's
/// states are verified against the mixed-radix scheme, the global table is
/// accumulated in input order, and each block becomes one compact record.
/// Fails with the first failing block's first failure, in input order.
pub fn compact(
    list: &RawBlockList,
    rules: Option<&ModernPropertyRules>,
    metadata: Option<MetaData>,
) -> (r: Result<ModernBlockList, CompactError>)
    ensures
        r is Ok <==> all_blocks_valid(list@),
        r matches Ok(out) ==> compact_output_ok(
            out@,
            list@,
            rules_view(rules),
            match metadata {
                Some(m) => Some(m@),
                None => None,
            },
        ),
        r matches Err(e) ==> {
            &&& first_invalid_block(list@, 0) < list@.len()
            &&& block_check(list@[first_invalid_block(list@, 0)].1) == Err::<
                (int, Option<int>),
                CompactError,
            >(e)
        },
{
    let ghost blocks = list@;
    let ghost rv = rules_view(rules);
    let mut table: Vec<(String, EnumProperty)> = Vec::new();
    let mut out_blocks: Vec<(crate::identifier::Identifier, ModernBlockData)> = Vec::new();
    let nb = list.blocks.len();
    assert(blocks.take(0) =~= Seq::empty());
    assert(table_view(table@) =~= extend_table(Seq::empty(), enum_pairs(blocks.take(0), rv)));
    let mut i: usize = 0;
    while i < nb
        invariant
            0 <= i <= nb,
            nb == list.blocks.len(),
            blocks == list@,
            rv == rules_view(rules),
            nb == blocks.len(),
            forall|bi: int| 0 <= bi < i ==> block_check(#[trigger] blocks[bi].1) is Ok,
            table_view(table@) == extend_table(Seq::empty(), enum_pairs(blocks.take(i as int), rv)),
            out_blocks.len() == i,
            forall|bi: int| 0 <= bi < i ==> (#[trigger] out_blocks@[bi]).0@ == blocks[bi].0,
            forall|bi: int| 0 <= bi < i ==> (#[trigger] out_blocks@[bi]).1@.base_id == block_check(
                blocks[bi].1,
            )->Ok_0.0 && out_blocks@[bi].1@.default_id == block_check(blocks[bi].1)->Ok_0.1,
            forall|bi: int| 0 <= bi < i ==> (#[trigger] out_blocks@[bi]).1@.kinds == block_kinds(
                blocks[bi].1.props,
                rv,
            ),
        decreases nb - i,
    {
        let block = &list.blocks[i].1;
        let ghost props = blocks[i as int].1.props;
        assert(props == block@.props);
        let (base, default_id) = match verify_block(block) {
            Ok(p) => p,
            Err(e) => {
                proof {
                    lemma_first_invalid_block(blocks, 0);
                    assert(first_invalid_block(blocks, 0) == i as int) by {
                        let f = first_invalid_block(blocks, 0);
                        if f < i as int {
                            assert(block_check(blocks[f].1) is Ok);
                        }
                        if f > i as int {
                            assert(block_check(blocks[i as int].1) is Ok);
                        }
                    }
                }
                return Err(e);
            },
        };
        // Build the block's compact property list and extend the table.
        let classified = block.classified();
        let ghost cp = classified_props(props);
        assert(kind_pairs_view(classified@) == cp);
        let ncp = classified.len();
        assert(ncp == cp.len());
        let ghost table_start = table_view(table@);
        let mut kinds: Vec<(String, PropertyValue)> = Vec::new();
        assert(cp.take(0) =~= Seq::empty());
        assert(enum_pairs_of_classified(cp.take(0), rv) =~= Seq::empty());
        assert(kinds_view(kinds@) =~= block_kinds(props, rv).take(0));
        assert(extend_table(table_start, enum_pairs_of_classified(cp.take(0), rv))
            == table_start);
        let mut k: usize = 0;
        while k < ncp
            invariant
                0 <= k <= ncp,
                i < nb,
                nb == list.blocks.len(),
                blocks == list@,
                rv == rules_view(rules),
                nb == blocks.len(),
                block == &list.blocks[i as int].1,
                props == blocks[i as int].1.props,
                cp == classified_props(props),
                kind_pairs_view(classified@) == cp,
                ncp == classified.len(),
                ncp == cp.len(),
                kinds_view(kinds@) == block_kinds(props, rv).take(k as int),
                table_view(table@) == extend_table(
                    table_start,
                    enum_pairs_of_classified(cp.take(k as int), rv),
                ),
            decreases ncp - k,
        {
            proof {
                assert(cp.take(k as int + 1).drop_last() =~= cp.take(k as int));
                assert(cp.take(k as int + 1).last() == cp[k as int]);
                assert(block_kinds(props, rv).take(k as int + 1).drop_last() =~= block_kinds(
                    props,
                    rv,
                ).take(k as int));
            }
            let name = &classified[k].0;
            assert(name@ == cp[k as int].0);
            let base_name: String = if name.eq(&String::from_str("type")) {
                String::from_str("kind")
            } else {
                name.clone()
            };
            assert(base_name@ == type_normalized(cp[k as int].0));
            match &classified[k].1 {
                PropertyKind::Bool => {
                    kinds.push((base_name, PropertyValue::bool()));
                    proof {
                        assert(kinds_view(kinds@) =~= block_kinds(props, rv).take(k as int + 1));
                        assert(enum_pairs_of_classified(cp.take(k as int + 1), rv)
                            =~= enum_pairs_of_classified(cp.take(k as int), rv));
                    }
                },
                PropertyKind::Int(lo, hi) => {
                    kinds.push((base_name, PropertyValue::range(*lo, *hi)));
                    proof {
                        assert(kinds_view(kinds@) =~= block_kinds(props, rv).take(k as int + 1));
                        assert(enum_pairs_of_classified(cp.take(k as int + 1), rv)
                            =~= enum_pairs_of_classified(cp.take(k as int), rv));
                    }
                },
                PropertyKind::Enum(_) => {
                    let kind = classified[k].1.duplicate();
                    assert(kind@ == cp[k as int].1);
                    let pair = transform_entry(rules, name, kind);
                    assert(pair.0@ == final_name_spec(rv, cp[k as int].0, cp[k as int].1));
                    kinds.push((base_name, PropertyValue::enum_name(pair.0.as_str())));
                    proof {
                        assert(kinds_view(kinds@) =~= block_kinds(props, rv).take(k as int + 1));
                    }
                    match pair.1 {
                        PropertyKind::Enum(p) => {
                            let ghost tv_before = table_view(table@);
                            let ghost pv = p@;
                            assert(pv == cp[k as int].1->Enum_0);
                            insert_table(&mut table, &pair.0, p);
                            proof {
                                let done = enum_pairs_of_classified(cp.take(k as int), rv);
                                let x: EnumPair = (pair.0@, pv);
                                assert(enum_pairs_of_classified(cp.take(k as int + 1), rv)
                                    =~= done.push(x));
                                assert(done.push(x).drop_last() =~= done);
                                assert(done.push(x).last() == x);
                                assert(extend_table(table_start, done.push(x)) == table_insert(
                                    extend_table(table_start, done),
                                    pair.0@,
                                    pv,
                                ));
                                assert(table_view(table@) == table_insert(
                                    tv_before,
                                    pair.0@,
                                    pv,
                                ));
                            }
                        },
                        _ => {
                            proof {
                                assert(false);
                            }
                        },
                    }
                },
            }
            k = k + 1;
        }
        proof {
            assert(cp.take(ncp as int) =~= cp);
            assert(block_kinds(props, rv).take(ncp as int) =~= block_kinds(props, rv));
            lemma_pairs_of_classified(props, rv);
            lemma_extend_table_concat(
                Seq::empty(),
                enum_pairs(blocks.take(i as int), rv),
                enum_pairs_of_block(props, rv),
            );
            assert(blocks.take(i as int + 1).drop_last() =~= blocks.take(i as int));
            assert(blocks.take(i as int + 1).last() == blocks[i as int]);
            assert(enum_pairs(blocks.take(i as int + 1), rv) == enum_pairs(
                blocks.take(i as int),
                rv,
            ) + enum_pairs_of_block(props, rv));
        }
        let key = list.blocks[i].0.duplicate();
        let data = ModernBlockData::new(kinds, base, default_id);
        assert(data@.kinds == block_kinds(props, rv));
        assert(data@.base_id == block_check(blocks[i as int].1)->Ok_0.0);
        out_blocks.push((key, data));
        i = i + 1;
    }
    proof {
        assert(blocks.take(nb as int) =~= blocks);
    }
    let out = ModernBlockList::new(metadata, table, out_blocks);
    proof {
        assert(forall|bi: int|
            0 <= bi < blocks.len() ==> #[trigger] blocks_view(out_blocks@)[bi] == (
            out_blocks@[bi].0@,
            out_blocks@[bi].1@,
            ));
    }
    Ok(out)
}

/// Runs the whole intermediary pipeline: collision detection first — a
/// surviving name collision is fatal and yields no output — then
/// verification and compaction. Value collisions are only warnings; callers
/// read them off `detect_collisions` separately.
pub fn build_intermediary(
    list: &RawBlockList,
    rules: Option<&ModernPropertyRules>,
    metadata: Option<MetaData>,
) -> (r: Result<ModernBlockList, BuildError>)
    ensures
        r is Ok <==> (blocks_all_classify(list@) && !name_collision_exists(
            list@,
            rules_view(rules),
        ) && all_blocks_valid(list@)),
        r matches Ok(out) ==> compact_output_ok(
            out@,
            list@,
            rules_view(rules),
            match metadata {
                Some(m) => Some(m@),
                None => None,
            },
        ),
        r matches Err(e) ==> match e {
            BuildError::Malformed(pe) => classify_error(list@) == Some(pe),
            BuildError::Invalid(ce) => blocks_all_classify(list@) && if ce
                == CompactError::NameCollision {
                name_collision_exists(list@, rules_view(rules))
            } else {
                &&& !name_collision_exists(list@, rules_view(rules))
                &&& first_invalid_block(list@, 0) < list@.len()
                &&& block_check(list@[first_invalid_block(list@, 0)].1) == Err::<
                    (int, Option<int>),
                    CompactError,
                >(ce)
            },
        },
{
    let ghost pairs = enum_pairs(list@, rules_view(rules));
    proof {
        crate::collisions::lemma_name_collision_meaning(list@, rules_view(rules));
    }
    let collisions = match detect_collisions(list, rules) {
        Ok(c) => c,
        Err(e) => {
            return Err(BuildError::Malformed(e));
        },
    };
    proof {
        lemma_collision_iff(pairs);
    }
    if collisions.should_exit() {
        return Err(BuildError::Invalid(CompactError::NameCollision));
    }
    match compact(list, rules, metadata) {
        Ok(out) => Ok(out),
        Err(e) => {
            proof {
                lemma_first_invalid_block(list@, 0);
            }
            assert(e != CompactError::NameCollision) by {
                let f = first_invalid_block(list@, 0);
                let v = list@[f].1;
                assert(block_check(v) == Err::<(int, Option<int>), CompactError>(e));
                if v.states.len() == 0 || v.states.len() != crate::raw::state_count_spec(
                    v.props,
                ) {
                    assert(e == CompactError::StateCountMismatch);
                } else {
                    let base = v.states[0].id;
                    let fb = crate::states::first_bad_from(v.props, base, v.states, 0);
                    assert(fb < v.states.len());
                    crate::states::lemma_first_bad_from(v.props, base, v.states, 0);
                    assert(e == crate::states::state_error(v.props, base, v.states[fb])->Some_0);
                    let se = crate::states::state_error(v.props, base, v.states[fb]);
                    assert(se is Some);
                    if !crate::states::shape_ok(v.props, v.states[fb].assigns) {
                        assert(se == Some(CompactError::PropertyCountMismatch));
                    } else if !crate::states::values_ok(v.props, v.states[fb].assigns) {
                        assert(se == Some(CompactError::UnknownPropertyValue));
                    } else {
                        assert(se == Some(CompactError::IdMismatch));
                    }
                }
            }
            Err(BuildError::Invalid(e))
        },
    }
}

} // verus!
