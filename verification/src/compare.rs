//! The one-directional compatibility comparator: order-sensitive
//! classification of how a target property or block diverges from a base.

use vstd::prelude::*;
use crate::data::{kinds_view, ModernBlockData, ModernBlockDataView, ModernBlockList,
    PropertyValueView};
use crate::identifier::{Identifier, IdentifierView};
use crate::table::{has_key, key_index, lemma_key_index, value_of};

verus! {

/// How a target property's ordered value list relates to the base's.
#[derive(Debug, Clone, Copy, PartialEq, Eq, Structural)]
pub enum PropertyComparison {
    /// The sequences are identical.
    Equal,
    /// The base is a proper prefix of the target: the target merely adds
    /// trailing values, so consumers of the base stay valid.
    MissingEnd,
    /// The target is a proper prefix of the base: the base has trailing
    /// values the target lacks.
    LongerEnd,
    /// Same value set, different positions; ids are not interchangeable
    /// because positions are digits of the mixed-radix scheme.
    DifferentOrdering,
    /// The base uses a value the target lacks entirely.
    DifferentValues,
}

/// Length of the longest common prefix of `b` and `t`.
pub open spec fn lcp(b: Seq<Seq<char>>, t: Seq<Seq<char>>) -> int
    decreases b.len(),
{
    if b.len() == 0 || t.len() == 0 || b[0] != t[0] {
        0
    } else {
        1 + lcp(b.drop_first(), t.drop_first())
    }
}

/// What `lcp` computes: the first index at which the sequences part.
pub proof fn lemma_lcp(b: Seq<Seq<char>>, t: Seq<Seq<char>>)
    ensures
        0 <= lcp(b, t) <= b.len(),
        lcp(b, t) <= t.len(),
        forall|j: int| 0 <= j < lcp(b, t) ==> b[j] == t[j],
        lcp(b, t) < b.len() && lcp(b, t) < t.len() ==> b[lcp(b, t)] != t[lcp(b, t)],
    decreases b.len(),
{
    if b.len() > 0 && t.len() > 0 && b[0] == t[0] {
        lemma_lcp(b.drop_first(), t.drop_first());
        assert forall|j: int| 0 <= j < lcp(b, t) implies b[j] == t[j] by {
            if j > 0 {
                assert(b.drop_first()[j - 1] == b[j]);
                assert(t.drop_first()[j - 1] == t[j]);
                assert(b.drop_first()[j - 1] == t.drop_first()[j - 1]);
            }
        }
        if lcp(b, t) < b.len() && lcp(b, t) < t.len() {
            let l = lcp(b.drop_first(), t.drop_first());
            assert(b.drop_first()[l] != t.drop_first()[l]);
            assert(b.drop_first()[l] == b[l + 1]);
            assert(t.drop_first()[l] == t[l + 1]);
        }
    }
}

/// Every value of `b` occurs somewhere in `t`.
pub open spec fn values_subset(b: Seq<Seq<char>>, t: Seq<Seq<char>>) -> bool {
    forall|i: int| 0 <= i < b.len() ==> t.contains(#[trigger] b[i])
}

/// How a target value list diverges from a base value list. The tie-break
/// when the matched prefix covers one whole side is fixed here: a base that
/// is a proper prefix of the target reads `MissingEnd`; a target that is a
/// proper prefix of the base reads `LongerEnd`.
pub open spec fn property_comparison_spec(b: Seq<Seq<char>>, t: Seq<Seq<char>>) -> PropertyComparison {
    if b == t {
        PropertyComparison::Equal
    } else {
        let k = lcp(b, t);
        if k == b.len() {
            PropertyComparison::MissingEnd
        } else if k == t.len() {
            PropertyComparison::LongerEnd
        } else if values_subset(b, t) {
            PropertyComparison::DifferentOrdering
        } else {
            PropertyComparison::DifferentValues
        }
    }
}

fn contains_value(t: &Vec<String>, v: &String) -> (r: bool)
    ensures
        r == t.deep_view().contains(v@),
{
    let ghost tv = t.deep_view();
    let n = t.len();
    let mut i: usize = 0;
    while i < n
        invariant
            0 <= i <= n,
            n == t.len(),
            tv == t.deep_view(),
            n == tv.len(),
            forall|j: int| 0 <= j < i ==> tv[j] != v@,
        decreases n - i,
    {
        if t[i].eq(v) {
            assert(tv[i as int] == v@);
            return true;
        }
        i = i + 1;
    }
    proof {
        if tv.contains(v@) {
            let j = choose|j: int| 0 <= j < tv.len() && tv[j] == v@;
            assert(tv[j] != v@);
        }
    }
    false
}

impl PropertyComparison {
    /// Classifies how `target`'s ordered value list diverges from `base`'s,
    /// as `property_comparison_spec` states.
    pub fn compare(base: &Vec<String>, target: &Vec<String>) -> (r: PropertyComparison)
        ensures
            r == property_comparison_spec(base.deep_view(), target.deep_view()),
    {
        let ghost b = base.deep_view();
        let ghost t = target.deep_view();
        proof {
            lemma_lcp(b, t);
        }
        let nb = base.len();
        let nt = target.len();
        let mut k: usize = 0;
        while k < nb && k < nt && base[k].eq(&target[k])
            invariant
                0 <= k <= nb,
                k <= nt,
                nb == base.len(),
                nt == target.len(),
                b == base.deep_view(),
                t == target.deep_view(),
                nb == b.len(),
                nt == t.len(),
                forall|j: int| 0 <= j < k ==> b[j] == t[j],
            decreases nb - k,
        {
            k = k + 1;
        }
        proof {
            assert(k as int == lcp(b, t)) by {
                lemma_lcp(b, t);
                let l = lcp(b, t);
                if l < k as int {
                    assert(b[l] == t[l]);
                }
                if l > k as int {
                    assert(b[k as int] == t[k as int]);
                }
            }
        }
        if k == nb && k == nt {
            proof {
                assert(b =~= t);
            }
            return PropertyComparison::Equal;
        }
        assert(b != t) by {
            if b.len() == t.len() {
                assert(b[k as int] != t[k as int]);
            }
        }
        if k == nb {
            return PropertyComparison::MissingEnd;
        }
        if k == nt {
            return PropertyComparison::LongerEnd;
        }
        let mut i: usize = 0;
        while i < nb
            invariant
                0 <= i <= nb,
                nb == base.len(),
                nt == target.len(),
                b == base.deep_view(),
                t == target.deep_view(),
                nb == b.len(),
                b != t,
                lcp(b, t) < b.len(),
                lcp(b, t) < t.len(),
                forall|j: int| 0 <= j < i ==> t.contains(#[trigger] b[j]),
            decreases nb - i,
        {
            if !contains_value(target, &base[i]) {
                assert(!t.contains(b[i as int]));
                return PropertyComparison::DifferentValues;
            }
            i = i + 1;
        }
        assert(values_subset(b, t));
        PropertyComparison::DifferentOrdering
    }
}

/// How a target block's ordered property mapping relates to the base's.
#[derive(Debug, Clone, Copy, PartialEq, Eq, Structural)]
pub enum BlockComparison {
    /// The mappings are identical in content and order.
    Equal,
    /// A shared property differs in kind across the two sides.
    DifferentType,
    /// A shared property is enumeration-typed on both sides but differs.
    DifferentEnum,
    /// A shared property is an integer range on both sides but differs.
    DifferentRange,
    /// The base has properties the target lacks.
    MoreProperties,
    /// The target has properties the base lacks.
    LessProperties,
    /// Identical names and kinds in a different declared order.
    DifferentOrder,
}

/// A compact property value that references an enumeration: any text marker
/// other than `"bool"`.
pub open spec fn is_enum_value(v: PropertyValueView) -> bool {
    v matches PropertyValueView::Text(s) && s != "bool"@
}

/// Index of the first base property that the target also declares but with
/// a different kind, from `i` on; the base length when there is none.
pub open spec fn first_divergent(
    b: Seq<(Seq<char>, PropertyValueView)>,
    t: Seq<(Seq<char>, PropertyValueView)>,
    i: int,
) -> int
    decreases b.len() - i,
{
    if i < 0 || i >= b.len() {
        b.len() as int
    } else if has_key(t, b[i].0) && value_of(t, b[i].0) != b[i].1 {
        i
    } else {
        first_divergent(b, t, i + 1)
    }
}

/// What `first_divergent` finds.
pub proof fn lemma_first_divergent(
    b: Seq<(Seq<char>, PropertyValueView)>,
    t: Seq<(Seq<char>, PropertyValueView)>,
    i: int,
)
    requires
        0 <= i <= b.len(),
    ensures
        i <= first_divergent(b, t, i) <= b.len(),
        forall|k: int| i <= k < first_divergent(b, t, i) ==> !(has_key(t, #[trigger] b[k].0)
            && value_of(t, b[k].0) != b[k].1),
        first_divergent(b, t, i) < b.len() ==> has_key(t, b[first_divergent(b, t, i)].0)
            && value_of(t, b[first_divergent(b, t, i)].0) != b[first_divergent(b, t, i)].1,
    decreases b.len() - i,
{
    if i < b.len() && !(has_key(t, b[i].0) && value_of(t, b[i].0) != b[i].1) {
        lemma_first_divergent(b, t, i + 1);
    }
}

/// How a target block diverges from a base block: the first shared property
/// with a differing kind decides, else the property counts, else the order.
pub open spec fn block_comparison_spec(
    b: Seq<(Seq<char>, PropertyValueView)>,
    t: Seq<(Seq<char>, PropertyValueView)>,
) -> BlockComparison {
    if b == t {
        BlockComparison::Equal
    } else if b.len() == 0 {
        BlockComparison::LessProperties
    } else if t.len() == 0 {
        BlockComparison::MoreProperties
    } else {
        let fd = first_divergent(b, t, 0);
        if fd < b.len() {
            let bk = b[fd].1;
            let tk = value_of(t, b[fd].0);
            if is_enum_value(bk) && is_enum_value(tk) {
                BlockComparison::DifferentEnum
            } else if bk is Range && tk is Range {
                BlockComparison::DifferentRange
            } else {
                BlockComparison::DifferentType
            }
        } else if b.len() < t.len() {
            BlockComparison::LessProperties
        } else if b.len() > t.len() {
            BlockComparison::MoreProperties
        } else {
            BlockComparison::DifferentOrder
        }
    }
}

fn find_kind<'a>(kinds: &'a Vec<(String, crate::data::PropertyValue)>, name: &String) -> (r:
    Option<&'a crate::data::PropertyValue>)
    ensures
        r matches Some(v) ==> has_key(kinds_view(kinds@), name@) && v@ == value_of(
            kinds_view(kinds@),
            name@,
        ),
        r is None ==> !has_key(kinds_view(kinds@), name@),
{
    let ghost kv = kinds_view(kinds@);
    proof {
        lemma_key_index(kv, name@);
    }
    let n = kinds.len();
    let mut i: usize = 0;
    while i < n
        invariant
            0 <= i <= n,
            n == kinds.len(),
            kv == kinds_view(kinds@),
            n == kv.len(),
            forall|j: int| 0 <= j < i ==> #[trigger] kv[j].0 != name@,
        decreases n - i,
    {
        if kinds[i].0.eq(name) {
            assert(kv[i as int].0 == name@);
            proof {
                lemma_key_index(kv, name@);
                assert(key_index(kv, name@) == i as int);
            }
            return Some(&kinds[i].1);
        }
        i = i + 1;
    }
    None
}

impl BlockComparison {
    /// Classifies how `target`'s property mapping diverges from `base`'s, as
    /// `block_comparison_spec` states.
    pub fn compare(base: &ModernBlockData, target: &ModernBlockData) -> (r: BlockComparison)
        ensures
            r == block_comparison_spec(base@.kinds, target@.kinds),
    {
        let ghost b = base@.kinds;
        let ghost t = target@.kinds;
        let nb = base.kinds.len();
        let nt = target.kinds.len();
        // Identity of content and order.
        if nb == nt {
            let mut k: usize = 0;
            let mut all_eq = true;
            while k < nb
                invariant
                    0 <= k <= nb,
                    nb == base.kinds.len(),
                    nt == target.kinds.len(),
                    b == base@.kinds,
                    t == target@.kinds,
                    nb == b.len(),
                    nb == t.len(),
                    all_eq <==> (forall|j: int| 0 <= j < k ==> b[j] == t[j]),
                decreases nb - k,
            {
                if !(base.kinds[k].0.eq(&target.kinds[k].0) && base.kinds[k].1.value_eq(
                    &target.kinds[k].1,
                )) {
                    assert(b[k as int] != t[k as int]);
                    all_eq = false;
                } else {
                    assert(b[k as int] == t[k as int]);
                }
                k = k + 1;
            }
            if all_eq {
                proof {
                    assert(b =~= t);
                }
                return BlockComparison::Equal;
            }
        }
        assert(b != t) by {
            if b.len() == t.len() {
                let j = choose|j: int| 0 <= j < b.len() && b[j] != t[j];
                assert(b[j] != t[j]);
            }
        }
        if nb == 0 {
            return BlockComparison::LessProperties;
        }
        if nt == 0 {
            return BlockComparison::MoreProperties;
        }
        proof {
            lemma_first_divergent(b, t, 0);
        }
        let mut i: usize = 0;
        while i < nb
            invariant
                0 <= i <= nb,
                nb == base.kinds.len(),
                nt == target.kinds.len(),
                b == base@.kinds,
                t == target@.kinds,
                nb == b.len(),
                nt == t.len(),
                b != t,
                nb > 0,
                nt > 0,
                forall|j: int| 0 <= j < i ==> !(has_key(t, #[trigger] b[j].0) && value_of(
                    t,
                    b[j].0,
                ) != b[j].1),
            decreases nb - i,
        {
            let name = &base.kinds[i].0;
            match find_kind(&target.kinds, name) {
                Some(tk) => {
                    if !base.kinds[i].1.value_eq(tk) {
                        proof {
                            assert(b[i as int].0 == name@);
                            assert(b[i as int].1 == base.kinds@[i as int].1@);
                            assert(has_key(t, b[i as int].0));
                            assert(value_of(t, b[i as int].0) != b[i as int].1);
                            lemma_first_divergent(b, t, 0);
                            assert(first_divergent(b, t, 0) == i as int) by {
                                let f = first_divergent(b, t, 0);
                                if f < i as int {
                                    assert(!(has_key(t, b[f].0) && value_of(t, b[f].0) != b[f].1));
                                }
                                if f > i as int {
                                    assert(!(has_key(t, b[i as int].0) && value_of(t, b[i as int].0)
                                        != b[i as int].1));
                                }
                            }
                        }
                        let bk = &base.kinds[i].1;
                        return if bk.is_enum() && tk.is_enum() {
                            BlockComparison::DifferentEnum
                        } else if bk.is_range() && tk.is_range() {
                            BlockComparison::DifferentRange
                        } else {
                            BlockComparison::DifferentType
                        };
                    }
                },
                None => {},
            }
            i = i + 1;
        }
        proof {
            lemma_first_divergent(b, t, 0);
            assert(first_divergent(b, t, 0) == nb as int) by {
                let f = first_divergent(b, t, 0);
                if f < nb as int {
                    assert(!(has_key(t, b[f].0) && value_of(t, b[f].0) != b[f].1));
                }
            }
        }
        if nb < nt {
            BlockComparison::LessProperties
        } else if nb > nt {
            BlockComparison::MoreProperties
        } else {
            BlockComparison::DifferentOrder
        }
    }
}

/// The per-property verdicts for the properties both sides declare, in the
/// base's order.
pub open spec fn property_results_spec(
    base: Seq<(Seq<char>, Seq<Seq<char>>)>,
    target: Seq<(Seq<char>, Seq<Seq<char>>)>,
) -> Seq<(Seq<char>, PropertyComparison)>
    decreases base.len(),
{
    if base.len() == 0 {
        Seq::empty()
    } else {
        let rest = property_results_spec(base.drop_last(), target);
        if has_key(target, base.last().0) {
            rest.push(
                (
                    base.last().0,
                    property_comparison_spec(base.last().1, value_of(target, base.last().0)),
                ),
            )
        } else {
            rest
        }
    }
}

/// The base properties the target lacks, in the base's order.
pub open spec fn missing_properties_spec(
    base: Seq<(Seq<char>, Seq<Seq<char>>)>,
    target: Seq<(Seq<char>, Seq<Seq<char>>)>,
) -> Seq<Seq<char>>
    decreases base.len(),
{
    if base.len() == 0 {
        Seq::empty()
    } else {
        let rest = missing_properties_spec(base.drop_last(), target);
        if has_key(target, base.last().0) {
            rest
        } else {
            rest.push(base.last().0)
        }
    }
}

/// The per-block verdicts for the blocks both sides declare, in the base's
/// order.
pub open spec fn block_results_spec(
    base: Seq<(IdentifierView, ModernBlockDataView)>,
    target: Seq<(IdentifierView, ModernBlockDataView)>,
) -> Seq<(IdentifierView, BlockComparison)>
    decreases base.len(),
{
    if base.len() == 0 {
        Seq::empty()
    } else {
        let rest = block_results_spec(base.drop_last(), target);
        if has_key(target, base.last().0) {
            rest.push(
                (
                    base.last().0,
                    block_comparison_spec(
                        base.last().1.kinds,
                        value_of(target, base.last().0).kinds,
                    ),
                ),
            )
        } else {
            rest
        }
    }
}

/// The base blocks the target lacks, in the base's order.
pub open spec fn missing_blocks_spec(
    base: Seq<(IdentifierView, ModernBlockDataView)>,
    target: Seq<(IdentifierView, ModernBlockDataView)>,
) -> Seq<IdentifierView>
    decreases base.len(),
{
    if base.len() == 0 {
        Seq::empty()
    } else {
        let rest = missing_blocks_spec(base.drop_last(), target);
        if has_key(target, base.last().0) {
            rest
        } else {
            rest.push(base.last().0)
        }
    }
}

/// How many shared blocks keep their base id across the two sides.
pub open spec fn same_base_count(
    base: Seq<(IdentifierView, ModernBlockDataView)>,
    target: Seq<(IdentifierView, ModernBlockDataView)>,
) -> int
    decreases base.len(),
{
    if base.len() == 0 {
        0
    } else {
        same_base_count(base.drop_last(), target) + if has_key(target, base.last().0)
            && value_of(target, base.last().0).base_id == base.last().1.base_id {
            1int
        } else {
            0int
        }
    }
}

/// How many shared blocks read identically and keep their base id.
pub open spec fn perfect_count(
    base: Seq<(IdentifierView, ModernBlockDataView)>,
    target: Seq<(IdentifierView, ModernBlockDataView)>,
) -> int
    decreases base.len(),
{
    if base.len() == 0 {
        0
    } else {
        perfect_count(base.drop_last(), target) + if has_key(target, base.last().0)
            && block_comparison_spec(base.last().1.kinds, value_of(target, base.last().0).kinds)
            == BlockComparison::Equal && value_of(target, base.last().0).base_id
            == base.last().1.base_id {
            1int
        } else {
            0int
        }
    }
}

/// The view of a property verdict list.
pub open spec fn property_results_view(v: Seq<(String, PropertyComparison)>) -> Seq<
    (Seq<char>, PropertyComparison),
> {
    Seq::new(v.len(), |i: int| (v[i].0@, v[i].1))
}

/// The view of a block verdict list.
pub open spec fn block_results_view(v: Seq<(Identifier, BlockComparison)>) -> Seq<
    (IdentifierView, BlockComparison),
> {
    Seq::new(v.len(), |i: int| (v[i].0@, v[i].1))
}

/// The view of a block key list.
pub open spec fn identifiers_view(v: Seq<Identifier>) -> Seq<IdentifierView> {
    Seq::new(v.len(), |i: int| v[i]@)
}

/// The whole advisory divergence report of one comparison run.
#[derive(Debug)]
pub struct ComparisonReport {
    /// One verdict per shared property, in the base's order.
    pub property_results: Vec<(String, PropertyComparison)>,
    /// The base properties the target lacks.
    pub missing_properties: Vec<String>,
    /// One verdict per shared block, in the base's order.
    pub block_results: Vec<(Identifier, BlockComparison)>,
    /// The base blocks the target lacks.
    pub missing_blocks: Vec<Identifier>,
    /// Shared blocks whose base id agrees.
    pub same_base: usize,
    /// Shared blocks that read identically with an agreeing base id.
    pub perfect: usize,
}

/// Classifies every shared property and block of the two compact files, and
/// counts what is missing, shared, and untouched, as the report specs state.
pub fn compare_lists(base: &ModernBlockList, target: &ModernBlockList) -> (r: ComparisonReport)
    ensures
        property_results_view(r.property_results@) == property_results_spec(
            base@.properties,
            target@.properties,
        ),
        r.missing_properties.deep_view() == missing_properties_spec(
            base@.properties,
            target@.properties,
        ),
        block_results_view(r.block_results@) == block_results_spec(base@.blocks, target@.blocks),
        identifiers_view(r.missing_blocks@) == missing_blocks_spec(base@.blocks, target@.blocks),
        r.same_base as int == same_base_count(base@.blocks, target@.blocks),
        r.perfect as int == perfect_count(base@.blocks, target@.blocks),
{
    let ghost bp = base@.properties;
    let ghost tp = target@.properties;
    let ghost bb = base@.blocks;
    let ghost tb = target@.blocks;
    let mut property_results: Vec<(String, PropertyComparison)> = Vec::new();
    let mut missing_properties: Vec<String> = Vec::new();
    let np = base.properties.len();
    assert(bp.take(0) =~= Seq::empty());
    assert(property_results_view(property_results@) =~= property_results_spec(bp.take(0), tp));
    assert(missing_properties.deep_view() =~= missing_properties_spec(bp.take(0), tp));
    let mut i: usize = 0;
    while i < np
        invariant
            0 <= i <= np,
            np == base.properties.len(),
            bp == base@.properties,
            tp == target@.properties,
            np == bp.len(),
            property_results_view(property_results@) == property_results_spec(
                bp.take(i as int),
                tp,
            ),
            missing_properties.deep_view() == missing_properties_spec(bp.take(i as int), tp),
        decreases np - i,
    {
        proof {
            assert(bp.take(i as int + 1).drop_last() =~= bp.take(i as int));
            assert(bp.take(i as int + 1).last() == bp[i as int]);
        }
        let name = &base.properties[i].0;
        assert(name@ == bp[i as int].0);
        match target.find_property(name) {
            Some(found) => {
                let verdict = PropertyComparison::compare(base.properties[i].1.fields(),
                    found.fields());
                assert(verdict == property_comparison_spec(bp[i as int].1, value_of(tp, name@)));
                property_results.push((name.clone(), verdict));
                assert(property_results_view(property_results@) =~= property_results_spec(
                    bp.take(i as int + 1),
                    tp,
                ));
                assert(missing_properties.deep_view() =~= missing_properties_spec(
                    bp.take(i as int + 1),
                    tp,
                ));
            },
            None => {
                missing_properties.push(name.clone());
                assert(property_results_view(property_results@) =~= property_results_spec(
                    bp.take(i as int + 1),
                    tp,
                ));
                assert(missing_properties.deep_view() =~= missing_properties_spec(
                    bp.take(i as int + 1),
                    tp,
                ));
            },
        }
        i = i + 1;
    }
    proof {
        assert(bp.take(np as int) =~= bp);
    }
    let mut block_results: Vec<(Identifier, BlockComparison)> = Vec::new();
    let mut missing_blocks: Vec<Identifier> = Vec::new();
    let mut same_base: usize = 0;
    let mut perfect: usize = 0;
    let nb = base.blocks.len();
    assert(bb.take(0) =~= Seq::empty());
    assert(block_results_view(block_results@) =~= block_results_spec(bb.take(0), tb));
    assert(identifiers_view(missing_blocks@) =~= missing_blocks_spec(bb.take(0), tb));
    let mut k: usize = 0;
    while k < nb
        invariant
            0 <= k <= nb,
            nb == base.blocks.len(),
            bb == base@.blocks,
            tb == target@.blocks,
            nb == bb.len(),
            block_results_view(block_results@) == block_results_spec(bb.take(k as int), tb),
            identifiers_view(missing_blocks@) == missing_blocks_spec(bb.take(k as int), tb),
            same_base <= k,
            perfect <= k,
            same_base as int == same_base_count(bb.take(k as int), tb),
            perfect as int == perfect_count(bb.take(k as int), tb),
        decreases nb - k,
    {
        proof {
            assert(bb.take(k as int + 1).drop_last() =~= bb.take(k as int));
            assert(bb.take(k as int + 1).last() == bb[k as int]);
        }
        let key = &base.blocks[k].0;
        assert(key@ == bb[k as int].0);
        let data = &base.blocks[k].1;
        assert(data@ == bb[k as int].1);
        match target.find_block(key) {
            Some(found) => {
                let verdict = BlockComparison::compare(data, found);
                assert(verdict == block_comparison_spec(
                    bb[k as int].1.kinds,
                    value_of(tb, key@).kinds,
                ));
                block_results.push((key.duplicate(), verdict));
                if data.base_id() == found.base_id() {
                    same_base = same_base + 1;
                    if matches!(verdict, BlockComparison::Equal) {
                        perfect = perfect + 1;
                    }
                } else {
                    assert(value_of(tb, key@).base_id != bb[k as int].1.base_id);
                }
                assert(block_results_view(block_results@) =~= block_results_spec(
                    bb.take(k as int + 1),
                    tb,
                ));
                assert(identifiers_view(missing_blocks@) =~= missing_blocks_spec(
                    bb.take(k as int + 1),
                    tb,
                ));
            },
            None => {
                missing_blocks.push(key.duplicate());
                assert(block_results_view(block_results@) =~= block_results_spec(
                    bb.take(k as int + 1),
                    tb,
                ));
                assert(identifiers_view(missing_blocks@) =~= missing_blocks_spec(
                    bb.take(k as int + 1),
                    tb,
                ));
            },
        }
        k = k + 1;
    }
    proof {
        assert(bb.take(nb as int) =~= bb);
    }
    ComparisonReport {
        property_results,
        missing_properties,
        block_results,
        missing_blocks,
        same_base,
        perfect,
    }
}

} // verus!
