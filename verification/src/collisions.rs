//! Collision detection among enumerated properties.
//!
//! Every block's enumeration-typed properties — after the `"type"` to
//! `"kind"` normalization and rule substitution — are indexed twice: by
//! final name and by value list. A name carrying two different value lists
//! is a name collision, which is fatal; a value list carried by two
//! different names is a value collision, reported only as an inefficiency.

use vstd::prelude::*;
use crate::identifier::IdentifierView;
use crate::property::{classify_spec, EnumProperty, PropertyKind, PropertyKindParseError,
    PropertyKindView};
use crate::raw::RawBlockDataView;
use crate::raw::RawBlockList;
use crate::rules::{final_name_spec, rules_view, transform_entry, ModernPropertyRules, RulesView};
use crate::table::{bucket_insert, build_index, has_collision, has_key, key_index,
    lemma_key_index, retain_multi};

verus! {

/// One observation: a final property name together with the enumeration's
/// ordered value list.
pub type EnumPair = (Seq<char>, Seq<Seq<char>>);

/// The enumeration-typed properties of one block, transformed, in declared
/// order.
pub open spec fn enum_pairs_of_block(
    props: Seq<(Seq<char>, Seq<Seq<char>>)>,
    rules: Option<RulesView>,
) -> Seq<EnumPair>
    decreases props.len(),
{
    if props.len() == 0 {
        Seq::empty()
    } else {
        let rest = enum_pairs_of_block(props.drop_last(), rules);
        match classify_spec(props.last().1) {
            Ok(PropertyKindView::Enum(p)) => rest.push(
                (final_name_spec(rules, props.last().0, PropertyKindView::Enum(p)), p),
            ),
            _ => rest,
        }
    }
}

/// All blocks' transformed enumeration-typed properties, in input order.
pub open spec fn enum_pairs(
    blocks: Seq<(IdentifierView, RawBlockDataView)>,
    rules: Option<RulesView>,
) -> Seq<EnumPair>
    decreases blocks.len(),
{
    if blocks.len() == 0 {
        Seq::empty()
    } else {
        enum_pairs(blocks.drop_last(), rules) + enum_pairs_of_block(
            blocks.last().1.props,
            rules,
        )
    }
}

/// What one block's observations hold: the pair `(n, p)` occurs exactly when
/// some declared property classifies as the enumeration `p` and surfaces
/// under the final name `n`.
pub proof fn lemma_block_pairs_membership(
    props: Seq<(Seq<char>, Seq<Seq<char>>)>,
    rules: Option<RulesView>,
    n: Seq<char>,
    p: Seq<Seq<char>>,
)
    ensures
        enum_pairs_of_block(props, rules).contains((n, p)) <==> exists|k: int|
            0 <= k < props.len() && classify_spec(#[trigger] props[k].1) == Ok::<
                PropertyKindView,
                PropertyKindParseError,
            >(PropertyKindView::Enum(p)) && final_name_spec(
                rules,
                props[k].0,
                PropertyKindView::Enum(p),
            ) == n,
    decreases props.len(),
{
    if props.len() > 0 {
        lemma_block_pairs_membership(props.drop_last(), rules, n, p);
        let rest = enum_pairs_of_block(props.drop_last(), rules);
        let cur = enum_pairs_of_block(props, rules);
        assert(forall|k: int|
            0 <= k < props.len() - 1 ==> #[trigger] props.drop_last()[k] == props[k]);
        if cur.contains((n, p)) {
            let j = choose|j: int| 0 <= j < cur.len() && cur[j] == (n, p);
            if j < rest.len() {
                assert(rest[j] == (n, p));
                assert(rest.contains((n, p)));
                let k = choose|k: int|
                    0 <= k < props.drop_last().len() && classify_spec(
                        #[trigger] props.drop_last()[k].1,
                    ) == Ok::<PropertyKindView, PropertyKindParseError>(PropertyKindView::Enum(p))
                        && final_name_spec(
                        rules,
                        props.drop_last()[k].0,
                        PropertyKindView::Enum(p),
                    ) == n;
                assert(classify_spec(props[k].1) == Ok::<PropertyKindView, PropertyKindParseError>(
                    PropertyKindView::Enum(p),
                ));
            } else {
                // The occurrence is the block's last property.
                assert(cur[j] == cur.last());
                assert(classify_spec(props.last().1) matches Ok(PropertyKindView::Enum(q)));
                assert(classify_spec(props[props.len() - 1].1) == Ok::<
                    PropertyKindView,
                    PropertyKindParseError,
                >(PropertyKindView::Enum(p)));
            }
        }
        if exists|k: int|
            0 <= k < props.len() && classify_spec(#[trigger] props[k].1) == Ok::<
                PropertyKindView,
                PropertyKindParseError,
            >(PropertyKindView::Enum(p)) && final_name_spec(
                rules,
                props[k].0,
                PropertyKindView::Enum(p),
            ) == n {
            let k = choose|k: int|
                0 <= k < props.len() && classify_spec(#[trigger] props[k].1) == Ok::<
                    PropertyKindView,
                    PropertyKindParseError,
                >(PropertyKindView::Enum(p)) && final_name_spec(
                    rules,
                    props[k].0,
                    PropertyKindView::Enum(p),
                ) == n;
            if k < props.len() - 1 {
                assert(classify_spec(props.drop_last()[k].1) == Ok::<
                    PropertyKindView,
                    PropertyKindParseError,
                >(PropertyKindView::Enum(p)) && final_name_spec(
                    rules,
                    props.drop_last()[k].0,
                    PropertyKindView::Enum(p),
                ) == n);
                assert(rest.contains((n, p)));
                let j = choose|j: int| 0 <= j < rest.len() && rest[j] == (n, p);
                assert(cur[j] == (n, p));
                assert(cur.contains((n, p)));
            } else {
                assert(cur.last() == (n, p));
                assert(cur.contains((n, p)));
            }
        }
    }
}

/// What the whole observation sequence holds: a pair occurs exactly when it
/// occurs in some block.
pub proof fn lemma_enum_pairs_membership(
    blocks: Seq<(IdentifierView, RawBlockDataView)>,
    rules: Option<RulesView>,
    n: Seq<char>,
    p: Seq<Seq<char>>,
)
    ensures
        enum_pairs(blocks, rules).contains((n, p)) <==> exists|i: int|
            0 <= i < blocks.len() && enum_pairs_of_block(#[trigger] blocks[i].1.props,
            rules).contains((n, p)),
    decreases blocks.len(),
{
    if blocks.len() > 0 {
        lemma_enum_pairs_membership(blocks.drop_last(), rules, n, p);
        let rest = enum_pairs(blocks.drop_last(), rules);
        let bp = enum_pairs_of_block(blocks.last().1.props, rules);
        let cur = enum_pairs(blocks, rules);
        assert(cur == rest + bp);
        assert(forall|i: int|
            0 <= i < blocks.len() - 1 ==> #[trigger] blocks.drop_last()[i] == blocks[i]);
        if cur.contains((n, p)) {
            let j = choose|j: int| 0 <= j < cur.len() && cur[j] == (n, p);
            if j < rest.len() {
                assert(rest[j] == (n, p));
                assert(rest.contains((n, p)));
                let i = choose|i: int|
                    0 <= i < blocks.drop_last().len() && enum_pairs_of_block(
                        #[trigger] blocks.drop_last()[i].1.props,
                        rules,
                    ).contains((n, p));
                assert(enum_pairs_of_block(blocks[i].1.props, rules).contains((n, p)));
            } else {
                assert(bp[j - rest.len()] == (n, p));
                assert(bp.contains((n, p)));
                assert(enum_pairs_of_block(blocks[blocks.len() - 1].1.props, rules).contains(
                    (n, p),
                ));
            }
        }
        if exists|i: int|
            0 <= i < blocks.len() && enum_pairs_of_block(#[trigger] blocks[i].1.props,
            rules).contains((n, p)) {
            let i = choose|i: int|
                0 <= i < blocks.len() && enum_pairs_of_block(#[trigger] blocks[i].1.props,
                rules).contains((n, p));
            if i < blocks.len() - 1 {
                assert(enum_pairs_of_block(blocks.drop_last()[i].1.props, rules).contains(
                    (n, p),
                ));
                assert(rest.contains((n, p)));
                let j = choose|j: int| 0 <= j < rest.len() && rest[j] == (n, p);
                assert(cur[j] == (n, p));
            } else {
                let j = choose|j: int| 0 <= j < bp.len() && bp[j] == (n, p);
                assert(cur[rest.len() + j] == (n, p));
            }
        }
    }
}

/// The raw input declares, somewhere, a property that classifies as the
/// enumeration `p` and surfaces under the final name `n`.
pub open spec fn enum_occurs(
    blocks: Seq<(IdentifierView, RawBlockDataView)>,
    rules: Option<RulesView>,
    n: Seq<char>,
    p: Seq<Seq<char>>,
) -> bool {
    exists|i: int, k: int|
        0 <= i < blocks.len() && 0 <= k < blocks[i].1.props.len() && classify_spec(
            #[trigger] blocks[i].1.props[k].1,
        ) == Ok::<PropertyKindView, PropertyKindParseError>(PropertyKindView::Enum(p))
            && final_name_spec(rules, blocks[i].1.props[k].0, PropertyKindView::Enum(p)) == n
}

/// Two declared properties — possibly of different blocks — classify as
/// different enumerations yet surface under one final name.
pub open spec fn name_collision_exists(
    blocks: Seq<(IdentifierView, RawBlockDataView)>,
    rules: Option<RulesView>,
) -> bool {
    exists|n: Seq<char>, p1: Seq<Seq<char>>, p2: Seq<Seq<char>>|
        p1 != p2 && #[trigger] enum_occurs(blocks, rules, n, p1) && #[trigger] enum_occurs(
            blocks,
            rules,
            n,
            p2,
        )
}

/// A pair occurs in the observation sequence exactly when the raw input
/// declares it.
pub proof fn lemma_occurs_iff(
    blocks: Seq<(IdentifierView, RawBlockDataView)>,
    rules: Option<RulesView>,
    n: Seq<char>,
    p: Seq<Seq<char>>,
)
    ensures
        enum_pairs(blocks, rules).contains((n, p)) <==> enum_occurs(blocks, rules, n, p),
{
    lemma_enum_pairs_membership(blocks, rules, n, p);
    if enum_pairs(blocks, rules).contains((n, p)) {
        let i = choose|i: int|
            0 <= i < blocks.len() && enum_pairs_of_block(#[trigger] blocks[i].1.props,
            rules).contains((n, p));
        lemma_block_pairs_membership(blocks[i].1.props, rules, n, p);
        let k = choose|k: int|
            0 <= k < blocks[i].1.props.len() && classify_spec(#[trigger] blocks[i].1.props[k].1)
                == Ok::<PropertyKindView, PropertyKindParseError>(PropertyKindView::Enum(p))
                && final_name_spec(rules, blocks[i].1.props[k].0, PropertyKindView::Enum(p)) == n;
        assert(enum_occurs(blocks, rules, n, p));
    }
    if enum_occurs(blocks, rules, n, p) {
        let (i, k) = choose|i: int, k: int|
            0 <= i < blocks.len() && 0 <= k < blocks[i].1.props.len() && classify_spec(
                #[trigger] blocks[i].1.props[k].1,
            ) == Ok::<PropertyKindView, PropertyKindParseError>(PropertyKindView::Enum(p))
                && final_name_spec(rules, blocks[i].1.props[k].0, PropertyKindView::Enum(p)) == n;
        lemma_block_pairs_membership(blocks[i].1.props, rules, n, p);
        assert(enum_pairs_of_block(blocks[i].1.props, rules).contains((n, p)));
    }
}

/// The observation sequence holds a collision exactly when the raw input
/// holds a name collision.
pub proof fn lemma_name_collision_meaning(
    blocks: Seq<(IdentifierView, RawBlockDataView)>,
    rules: Option<RulesView>,
)
    ensures
        has_collision(enum_pairs(blocks, rules)) <==> name_collision_exists(blocks, rules),
{
    let pairs = enum_pairs(blocks, rules);
    if has_collision(pairs) {
        let (j1, j2) = choose|j1: int, j2: int|
            0 <= j1 < pairs.len() && 0 <= j2 < pairs.len() && #[trigger] pairs[j1].0
                == #[trigger] pairs[j2].0 && pairs[j1].1 != pairs[j2].1;
        let n = pairs[j1].0;
        let p1 = pairs[j1].1;
        let p2 = pairs[j2].1;
        assert(pairs[j1] == (n, p1));
        assert(pairs[j2] == (n, p2));
        assert(pairs.contains((n, p1)));
        assert(pairs.contains((n, p2)));
        lemma_occurs_iff(blocks, rules, n, p1);
        lemma_occurs_iff(blocks, rules, n, p2);
        assert(name_collision_exists(blocks, rules));
    }
    if name_collision_exists(blocks, rules) {
        let (n, p1, p2) = choose|n: Seq<char>, p1: Seq<Seq<char>>, p2: Seq<Seq<char>>|
            p1 != p2 && #[trigger] enum_occurs(blocks, rules, n, p1) && #[trigger] enum_occurs(
                blocks,
                rules,
                n,
                p2,
            );
        lemma_occurs_iff(blocks, rules, n, p1);
        lemma_occurs_iff(blocks, rules, n, p2);
        let j1 = choose|j: int| 0 <= j < pairs.len() && pairs[j] == (n, p1);
        let j2 = choose|j: int| 0 <= j < pairs.len() && pairs[j] == (n, p2);
        assert(pairs[j1].0 == pairs[j2].0 && pairs[j1].1 != pairs[j2].1);
    }
}

/// Every declared property of the block classifies.
pub open spec fn props_all_classify(props: Seq<(Seq<char>, Seq<Seq<char>>)>) -> bool {
    forall|k: int| 0 <= k < props.len() ==> classify_spec(#[trigger] props[k].1) is Ok
}

/// Every declared property of every block classifies.
pub open spec fn blocks_all_classify(blocks: Seq<(IdentifierView, RawBlockDataView)>) -> bool {
    forall|i: int| 0 <= i < blocks.len() ==> props_all_classify(#[trigger] blocks[i].1.props)
}

/// Index of the first property at or after `k` whose value list fails to
/// classify, or the property count when all classify.
pub open spec fn first_unclassifiable(props: Seq<(Seq<char>, Seq<Seq<char>>)>, k: int) -> int
    decreases props.len() - k,
{
    if k < 0 || k >= props.len() {
        props.len() as int
    } else if classify_spec(props[k].1) is Err {
        k
    } else {
        first_unclassifiable(props, k + 1)
    }
}

proof fn lemma_first_unclassifiable(props: Seq<(Seq<char>, Seq<Seq<char>>)>, k: int)
    requires
        0 <= k <= props.len(),
    ensures
        k <= first_unclassifiable(props, k) <= props.len(),
        forall|j: int| k <= j < first_unclassifiable(props, k) ==> classify_spec(
            #[trigger] props[j].1,
        ) is Ok,
        first_unclassifiable(props, k) < props.len() ==> classify_spec(
            props[first_unclassifiable(props, k)].1,
        ) is Err,
    decreases props.len() - k,
{
    if k < props.len() && classify_spec(props[k].1) is Ok {
        lemma_first_unclassifiable(props, k + 1);
    }
}

/// Index of the first block at or after `i` with an unclassifiable
/// property, or the block count when every block classifies.
pub open spec fn first_bad_block(blocks: Seq<(IdentifierView, RawBlockDataView)>, i: int) -> int
    decreases blocks.len() - i,
{
    if i < 0 || i >= blocks.len() {
        blocks.len() as int
    } else if !props_all_classify(blocks[i].1.props) {
        i
    } else {
        first_bad_block(blocks, i + 1)
    }
}

proof fn lemma_first_bad_block(blocks: Seq<(IdentifierView, RawBlockDataView)>, i: int)
    requires
        0 <= i <= blocks.len(),
    ensures
        i <= first_bad_block(blocks, i) <= blocks.len(),
        forall|j: int| i <= j < first_bad_block(blocks, i) ==> props_all_classify(
            #[trigger] blocks[j].1.props,
        ),
        first_bad_block(blocks, i) < blocks.len() ==> !props_all_classify(
            blocks[first_bad_block(blocks, i)].1.props,
        ),
    decreases blocks.len() - i,
{
    if i < blocks.len() && props_all_classify(blocks[i].1.props) {
        lemma_first_bad_block(blocks, i + 1);
    }
}

/// The classification error the scan stops on: that of the first failing
/// property of the first failing block, in input order.
pub open spec fn classify_error(blocks: Seq<(IdentifierView, RawBlockDataView)>) -> Option<
    PropertyKindParseError,
> {
    let bi = first_bad_block(blocks, 0);
    if bi < blocks.len() {
        let props = blocks[bi].1.props;
        Some(classify_spec(props[first_unclassifiable(props, 0)].1)->Err_0)
    } else {
        None
    }
}

/// The pairs with name and value list exchanged, for the by-values index.
pub open spec fn swap_pairs(pairs: Seq<EnumPair>) -> Seq<(Seq<Seq<char>>, Seq<char>)> {
    Seq::new(pairs.len(), |j: int| (pairs[j].1, pairs[j].0))
}

/// The view of the by-name index.
pub open spec fn name_index_view(v: Seq<(String, Vec<EnumProperty>)>) -> Seq<
    (Seq<char>, Seq<Seq<Seq<char>>>),
> {
    Seq::new(v.len(), |i: int| (v[i].0@, v[i].1.deep_view()))
}

/// The view of the by-values index.
pub open spec fn value_index_view(v: Seq<(EnumProperty, Vec<String>)>) -> Seq<
    (Seq<Seq<char>>, Seq<Seq<char>>),
> {
    Seq::new(v.len(), |i: int| (v[i].0@, v[i].1.deep_view()))
}

/// The mathematical image of a `CollisionList`.
pub struct CollisionListView {
    pub by_name: Seq<(Seq<char>, Seq<Seq<Seq<char>>>)>,
    pub by_values: Seq<(Seq<Seq<char>>, Seq<Seq<char>>)>,
}

/// The surviving collisions of one scan: names carrying more than one
/// distinct enumeration (fatal), and enumerations carried by more than one
/// name (an efficiency warning only).
#[derive(Debug)]
pub struct CollisionList {
    pub by_name: Vec<(String, Vec<EnumProperty>)>,
    pub by_values: Vec<(EnumProperty, Vec<String>)>,
}

impl View for CollisionList {
    type V = CollisionListView;

    open spec fn view(&self) -> CollisionListView {
        CollisionListView {
            by_name: name_index_view(self.by_name@),
            by_values: value_index_view(self.by_values@),
        }
    }
}

impl CollisionList {
    /// Whether the run must abort: it must exactly when a name collision
    /// survived the scan.
    pub fn should_exit(&self) -> (r: bool)
        ensures
            r == (self@.by_name.len() > 0),
    {
        self.by_name.len() > 0
    }

    /// The name collisions: each final name seen with more than one
    /// distinct enumeration, with all the enumerations seen under it.
    pub fn name_collisions(&self) -> (r: &Vec<(String, Vec<EnumProperty>)>)
        ensures
            name_index_view(r@) == self@.by_name,
    {
        &self.by_name
    }

    /// The value collisions: each enumeration seen under more than one
    /// name, with all the names seen for it.
    pub fn value_collisions(&self) -> (r: &Vec<(EnumProperty, Vec<String>)>)
        ensures
            value_index_view(r@) == self@.by_values,
    {
        &self.by_values
    }
}

fn duplicate_props(v: &Vec<EnumProperty>) -> (r: Vec<EnumProperty>)
    ensures
        r.deep_view() == v.deep_view(),
{
    let mut out: Vec<EnumProperty> = Vec::new();
    let n = v.len();
    let mut i: usize = 0;
    while i < n
        invariant
            0 <= i <= n,
            n == v.len(),
            out.len() == i,
            forall|j: int| 0 <= j < i ==> out.deep_view()[j] == v.deep_view()[j],
        decreases n - i,
    {
        out.push(v[i].duplicate());
        i = i + 1;
    }
    proof {
        assert(out.deep_view() =~= v.deep_view());
    }
    out
}

fn duplicate_strings(v: &Vec<String>) -> (r: Vec<String>)
    ensures
        r.deep_view() == v.deep_view(),
{
    let mut out: Vec<String> = Vec::new();
    let n = v.len();
    let mut i: usize = 0;
    while i < n
        invariant
            0 <= i <= n,
            n == v.len(),
            out.len() == i,
            forall|j: int| 0 <= j < i ==> out.deep_view()[j] == v.deep_view()[j],
        decreases n - i,
    {
        out.push(v[i].clone());
        i = i + 1;
    }
    proof {
        assert(out.deep_view() =~= v.deep_view());
    }
    out
}

fn insert_by_name(index: &mut Vec<(String, Vec<EnumProperty>)>, name: &String, prop: &EnumProperty)
    ensures
        name_index_view(final(index)@) == bucket_insert(
            name_index_view(old(index)@),
            name@,
            prop@,
        ),
{
    let ghost iv = name_index_view(index@);
    proof {
        lemma_key_index(iv, name@);
    }
    let n = index.len();
    let mut i: usize = 0;
    while i < n
        invariant
            0 <= i <= n,
            n == index.len(),
            iv == name_index_view(index@),
            index@ == old(index)@,
            n == iv.len(),
            forall|j: int| 0 <= j < i ==> #[trigger] iv[j].0 != name@,
        decreases n - i,
    {
        if index[i].0.eq(name) {
            assert(iv[i as int].0 == name@);
            assert(has_key(iv, name@));
            proof {
                lemma_key_index(iv, name@);
                assert(key_index(iv, name@) == i as int);
            }
            let ghost bucket = iv[i as int].1;
            let blen = index[i].1.len();
            assert(bucket.len() == blen);
            let mut a: usize = 0;
            while a < blen
                invariant
                    0 <= a <= blen,
                    i < index.len(),
                    blen == index[i as int].1.len(),
                    iv == name_index_view(index@),
                    index@ == old(index)@,
                    i < iv.len(),
                    iv[i as int].0 == name@,
                    has_key(iv, name@),
                    key_index(iv, name@) == i as int,
                    bucket == iv[i as int].1,
                    blen == bucket.len(),
                    forall|b: int| 0 <= b < a ==> bucket[b] != prop@,
                decreases blen - a,
            {
                if index[i].1[a].same_values(prop) {
                    assert(bucket[a as int] == prop@);
                    assert(bucket.contains(prop@));
                    assert(bucket_insert(iv, name@, prop@) == iv);
                    return ;
                }
                assert(bucket[a as int] == index@[i as int].1.deep_view()[a as int]);
                a = a + 1;
            }
            proof {
                if bucket.contains(prop@) {
                    let b = choose|b: int| 0 <= b < bucket.len() && bucket[b] == prop@;
                    assert(bucket[b] != prop@);
                }
                assert(!bucket.contains(prop@));
            }
            let mut new_bucket = duplicate_props(&index[i].1);
            assert(new_bucket.deep_view() == bucket);
            new_bucket.push(prop.duplicate());
            assert(new_bucket.deep_view() =~= bucket.push(prop@));
            let new_name = index[i].0.clone();
            index[i] = (new_name, new_bucket);
            proof {
                assert(name_index_view(index@) =~~= iv.update(
                    i as int,
                    (name@, bucket.push(prop@)),
                ));
            }
            return ;
        }
        i = i + 1;
    }
    proof {
        assert(!has_key(iv, name@));
    }
    let mut bucket: Vec<EnumProperty> = Vec::new();
    bucket.push(prop.duplicate());
    assert(bucket.deep_view() =~= seq![prop@]);
    index.push((name.clone(), bucket));
    proof {
        assert(name_index_view(index@) =~~= iv.push((name@, seq![prop@])));
    }
}

fn insert_by_value(
    index: &mut Vec<(EnumProperty, Vec<String>)>,
    prop: &EnumProperty,
    name: &String,
)
    ensures
        value_index_view(final(index)@) == bucket_insert(
            value_index_view(old(index)@),
            prop@,
            name@,
        ),
{
    let ghost iv = value_index_view(index@);
    proof {
        lemma_key_index(iv, prop@);
    }
    let n = index.len();
    let mut i: usize = 0;
    while i < n
        invariant
            0 <= i <= n,
            n == index.len(),
            iv == value_index_view(index@),
            index@ == old(index)@,
            n == iv.len(),
            forall|j: int| 0 <= j < i ==> #[trigger] iv[j].0 != prop@,
        decreases n - i,
    {
        if index[i].0.same_values(prop) {
            assert(iv[i as int].0 == prop@);
            assert(has_key(iv, prop@));
            proof {
                lemma_key_index(iv, prop@);
                assert(key_index(iv, prop@) == i as int);
            }
            let ghost bucket = iv[i as int].1;
            let blen = index[i].1.len();
            assert(bucket.len() == blen);
            let mut a: usize = 0;
            while a < blen
                invariant
                    0 <= a <= blen,
                    i < index.len(),
                    blen == index[i as int].1.len(),
                    iv == value_index_view(index@),
                    index@ == old(index)@,
                    i < iv.len(),
                    iv[i as int].0 == prop@,
                    has_key(iv, prop@),
                    key_index(iv, prop@) == i as int,
                    bucket == iv[i as int].1,
                    blen == bucket.len(),
                    forall|b: int| 0 <= b < a ==> bucket[b] != name@,
                decreases blen - a,
            {
                if index[i].1[a].eq(name) {
                    assert(bucket[a as int] == name@);
                    assert(bucket.contains(name@));
                    assert(bucket_insert(iv, prop@, name@) == iv);
                    return ;
                }
                assert(bucket[a as int] == index@[i as int].1.deep_view()[a as int]);
                a = a + 1;
            }
            proof {
                if bucket.contains(name@) {
                    let b = choose|b: int| 0 <= b < bucket.len() && bucket[b] == name@;
                    assert(bucket[b] != name@);
                }
                assert(!bucket.contains(name@));
            }
            let mut new_bucket = duplicate_strings(&index[i].1);
            assert(new_bucket.deep_view() == bucket);
            new_bucket.push(name.clone());
            assert(new_bucket.deep_view() =~= bucket.push(name@));
            let new_key = index[i].0.duplicate();
            index[i] = (new_key, new_bucket);
            proof {
                assert(value_index_view(index@) =~~= iv.update(
                    i as int,
                    (prop@, bucket.push(name@)),
                ));
            }
            return ;
        }
        i = i + 1;
    }
    proof {
        assert(!has_key(iv, prop@));
    }
    let mut bucket: Vec<String> = Vec::new();
    bucket.push(name.clone());
    assert(bucket.deep_view() =~= seq![name@]);
    index.push((prop.duplicate(), bucket));
    proof {
        assert(value_index_view(index@) =~~= iv.push((prop@, seq![name@])));
    }
}

fn retain_name_collisions(index: &Vec<(String, Vec<EnumProperty>)>) -> (r: Vec<
    (String, Vec<EnumProperty>),
>)
    ensures
        name_index_view(r@) == retain_multi(name_index_view(index@)),
{
    let ghost full = name_index_view(index@);
    let mut out: Vec<(String, Vec<EnumProperty>)> = Vec::new();
    let n = index.len();
    assert(full.take(0) =~= Seq::empty());
    assert(name_index_view(out@) =~= retain_multi(full.take(0)));
    let mut j: usize = 0;
    while j < n
        invariant
            0 <= j <= n,
            n == index.len(),
            full == name_index_view(index@),
            n == full.len(),
            name_index_view(out@) == retain_multi(full.take(j as int)),
        decreases n - j,
    {
        proof {
            assert(full.take(j as int + 1).drop_last() =~= full.take(j as int));
            assert(full.take(j as int + 1).last() == full[j as int]);
        }
        if index[j].1.len() > 1 {
            let bucket = duplicate_props(&index[j].1);
            assert(bucket.deep_view() == full[j as int].1);
            out.push((index[j].0.clone(), bucket));
            assert(name_index_view(out@) =~~= retain_multi(full.take(j as int + 1)));
        } else {
            assert(full[j as int].1.len() <= 1);
            assert(name_index_view(out@) =~~= retain_multi(full.take(j as int + 1)));
        }
        j = j + 1;
    }
    proof {
        assert(full.take(n as int) =~= full);
    }
    out
}

fn retain_value_collisions(index: &Vec<(EnumProperty, Vec<String>)>) -> (r: Vec<
    (EnumProperty, Vec<String>),
>)
    ensures
        value_index_view(r@) == retain_multi(value_index_view(index@)),
{
    let ghost full = value_index_view(index@);
    let mut out: Vec<(EnumProperty, Vec<String>)> = Vec::new();
    let n = index.len();
    assert(full.take(0) =~= Seq::empty());
    assert(value_index_view(out@) =~= retain_multi(full.take(0)));
    let mut j: usize = 0;
    while j < n
        invariant
            0 <= j <= n,
            n == index.len(),
            full == value_index_view(index@),
            n == full.len(),
            value_index_view(out@) == retain_multi(full.take(j as int)),
        decreases n - j,
    {
        proof {
            assert(full.take(j as int + 1).drop_last() =~= full.take(j as int));
            assert(full.take(j as int + 1).last() == full[j as int]);
        }
        if index[j].1.len() > 1 {
            let bucket = duplicate_strings(&index[j].1);
            assert(bucket.deep_view() == full[j as int].1);
            out.push((index[j].0.duplicate(), bucket));
            assert(value_index_view(out@) =~~= retain_multi(full.take(j as int + 1)));
        } else {
            assert(full[j as int].1.len() <= 1);
            assert(value_index_view(out@) =~~= retain_multi(full.take(j as int + 1)));
        }
        j = j + 1;
    }
    proof {
        assert(full.take(n as int) =~= full);
    }
    out
}

/// Scans every block's enumeration-typed properties — transformed as
/// `final_name_spec` states — and keeps the colliding buckets: names with
/// more than one distinct enumeration, and enumerations with more than one
/// name. Fails with the first classification error, in input order.
pub fn detect_collisions(list: &RawBlockList, rules: Option<&ModernPropertyRules>) -> (r: Result<
    CollisionList,
    PropertyKindParseError,
>)
    ensures
        r is Ok <==> blocks_all_classify(list@),
        r matches Err(e) ==> classify_error(list@) == Some(e),
        r matches Ok(c) ==> {
            &&& c@.by_name == retain_multi(
                build_index(enum_pairs(list@, rules_view(rules))),
            )
            &&& c@.by_values == retain_multi(
                build_index(swap_pairs(enum_pairs(list@, rules_view(rules)))),
            )
        },
{
    let ghost blocks = list@;
    let ghost rv = rules_view(rules);
    let mut by_name: Vec<(String, Vec<EnumProperty>)> = Vec::new();
    let mut by_values: Vec<(EnumProperty, Vec<String>)> = Vec::new();
    let nb = list.blocks.len();
    assert(blocks.take(0) =~= Seq::empty());
    assert(name_index_view(by_name@) =~= build_index(enum_pairs(blocks.take(0), rv)));
    assert(value_index_view(by_values@) =~= build_index(
        swap_pairs(enum_pairs(blocks.take(0), rv)),
    ));
    let mut i: usize = 0;
    while i < nb
        invariant
            0 <= i <= nb,
            nb == list.blocks.len(),
            blocks == list@,
            rv == rules_view(rules),
            nb == blocks.len(),
            forall|bi: int| 0 <= bi < i ==> props_all_classify(#[trigger] blocks[bi].1.props),
            name_index_view(by_name@) == build_index(enum_pairs(blocks.take(i as int), rv)),
            value_index_view(by_values@) == build_index(
                swap_pairs(enum_pairs(blocks.take(i as int), rv)),
            ),
        decreases nb - i,
    {
        let block = &list.blocks[i].1;
        let ghost props = blocks[i as int].1.props;
        assert(props == block@.props);
        let np = block.properties.len();
        assert(np == props.len());
        let ghost done = enum_pairs(blocks.take(i as int), rv);
        assert(enum_pairs_of_block(props.take(0), rv) =~= Seq::empty());
        assert(done + enum_pairs_of_block(props.take(0), rv) =~= done);
        let mut k: usize = 0;
        while k < np
            invariant
                0 <= k <= np,
                i < nb,
                nb == list.blocks.len(),
                blocks == list@,
                rv == rules_view(rules),
                nb == blocks.len(),
                block == &list.blocks[i as int].1,
                props == blocks[i as int].1.props,
                np == block.properties.len(),
                np == props.len(),
                done == enum_pairs(blocks.take(i as int), rv),
                forall|bi: int| 0 <= bi < i ==> props_all_classify(#[trigger] blocks[bi].1.props),
                forall|kk: int| 0 <= kk < k ==> classify_spec(#[trigger] props[kk].1) is Ok,
                name_index_view(by_name@) == build_index(
                    done + enum_pairs_of_block(props.take(k as int), rv),
                ),
                value_index_view(by_values@) == build_index(
                    swap_pairs(done + enum_pairs_of_block(props.take(k as int), rv)),
                ),
            decreases np - k,
        {
            proof {
                assert(props.take(k as int + 1).drop_last() =~= props.take(k as int));
                assert(props.take(k as int + 1).last() == props[k as int]);
            }
            match PropertyKind::classify(&block.properties[k].1) {
                Err(e) => {
                    proof {
                        assert(classify_spec(props[k as int].1) is Err);
                        assert(!props_all_classify(props));
                        lemma_first_bad_block(blocks, 0);
                        assert(first_bad_block(blocks, 0) == i as int) by {
                            let f = first_bad_block(blocks, 0);
                            if f < i as int {
                                assert(props_all_classify(blocks[f].1.props));
                            }
                            if f > i as int {
                                assert(props_all_classify(blocks[i as int].1.props));
                            }
                        }
                        lemma_first_unclassifiable(props, 0);
                        assert(first_unclassifiable(props, 0) == k as int) by {
                            let f = first_unclassifiable(props, 0);
                            if f < k as int {
                                assert(classify_spec(props[f].1) is Ok);
                            }
                            if f > k as int {
                                assert(classify_spec(props[k as int].1) is Ok);
                            }
                        }
                        assert(classify_error(blocks) == Some(e));
                        assert(!blocks_all_classify(blocks));
                    }
                    return Err(e);
                },
                Ok(kind) => {
                    assert(kind@ == classify_spec(props[k as int].1)->Ok_0);
                    let pair = transform_entry(rules, &block.properties[k].0, kind);
                    let ghost pairs_before = done + enum_pairs_of_block(props.take(k as int), rv);
                    match pair.1 {
                        PropertyKind::Enum(p) => {
                            proof {
                                assert(classify_spec(props[k as int].1) == Ok::<
                                    PropertyKindView,
                                    PropertyKindParseError,
                                >(PropertyKindView::Enum(p@)));
                                assert(pair.0@ == final_name_spec(
                                    rv,
                                    props[k as int].0,
                                    PropertyKindView::Enum(p@),
                                ));
                            }
                            insert_by_name(&mut by_name, &pair.0, &p);
                            insert_by_value(&mut by_values, &p, &pair.0);
                            proof {
                                let x = (pair.0@, p@);
                                assert(enum_pairs_of_block(props.take(k as int + 1), rv)
                                    =~= enum_pairs_of_block(props.take(k as int), rv).push(x));
                                assert(done + enum_pairs_of_block(props.take(k as int + 1), rv)
                                    =~= pairs_before.push(x));
                                assert(pairs_before.push(x).drop_last() =~= pairs_before);
                                assert(name_index_view(by_name@) == build_index(
                                    pairs_before.push(x),
                                ));
                                assert(swap_pairs(pairs_before.push(x)).drop_last() =~= swap_pairs(
                                    pairs_before,
                                ));
                                assert(swap_pairs(pairs_before.push(x)).last() == (p@, pair.0@));
                                assert(value_index_view(by_values@) == build_index(
                                    swap_pairs(pairs_before.push(x)),
                                ));
                            }
                        },
                        _ => {
                            proof {
                                assert(enum_pairs_of_block(props.take(k as int + 1), rv)
                                    =~= enum_pairs_of_block(props.take(k as int), rv));
                                assert(done + enum_pairs_of_block(props.take(k as int + 1), rv)
                                    =~= pairs_before);
                            }
                        },
                    }
                },
            }
            k = k + 1;
        }
        proof {
            assert(props.take(np as int) =~= props);
            assert(props_all_classify(props));
            assert(blocks.take(i as int + 1).drop_last() =~= blocks.take(i as int));
            assert(blocks.take(i as int + 1).last() == blocks[i as int]);
            assert(enum_pairs(blocks.take(i as int + 1), rv) =~= done + enum_pairs_of_block(
                props,
                rv,
            ));
        }
        i = i + 1;
    }
    proof {
        assert(blocks.take(nb as int) =~= blocks);
    }
    let kept_names = retain_name_collisions(&by_name);
    let kept_values = retain_value_collisions(&by_values);
    Ok(CollisionList { by_name: kept_names, by_values: kept_values })
}

} // verus!
