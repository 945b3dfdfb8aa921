//! The raw model: per block, the declared properties with their ordered raw
//! value lists, and the full list of raw states as read from input.

use vstd::prelude::*;
use crate::identifier::{Identifier, IdentifierView};
use crate::property::{classify_spec, PropertyKind, PropertyKindView};

verus! {

/// The mathematical image of `RawBlockState`.
pub struct RawBlockStateView {
    pub assigns: Seq<(Seq<char>, Seq<char>)>,
    pub id: int,
    pub default: bool,
}

/// One raw state: its ordered property-value assignments, its numeric id,
/// and whether the input flags it as the block's default state.
#[derive(Debug)]
pub struct RawBlockState {
    pub properties: Vec<(String, String)>,
    pub id: i32,
    pub default: bool,
}

/// The view of a state's assignment list.
pub open spec fn assigns_view(assigns: Seq<(String, String)>) -> Seq<(Seq<char>, Seq<char>)> {
    Seq::new(assigns.len(), |i: int| (assigns[i].0@, assigns[i].1@))
}

impl View for RawBlockState {
    type V = RawBlockStateView;

    open spec fn view(&self) -> RawBlockStateView {
        RawBlockStateView {
            assigns: assigns_view(self.properties@),
            id: self.id as int,
            default: self.default,
        }
    }
}

impl RawBlockState {
    /// Bundles one raw state.
    pub fn new(properties: Vec<(String, String)>, id: i32, default: bool) -> (r: RawBlockState)
        ensures
            r@.assigns == assigns_view(properties@),
            r@.id == id as int,
            r@.default == default,
    {
        RawBlockState { properties, id, default }
    }
}

/// The mathematical image of `RawBlockData`.
pub struct RawBlockDataView {
    pub props: Seq<(Seq<char>, Seq<Seq<char>>)>,
    pub states: Seq<RawBlockStateView>,
}

/// One raw block: its declared properties in declared order, each with its
/// ordered raw value list, and its raw states in declared order.
#[derive(Debug)]
pub struct RawBlockData {
    pub properties: Vec<(String, Vec<String>)>,
    pub states: Vec<RawBlockState>,
}

/// The view of a declared property list.
pub open spec fn props_view(props: Seq<(String, Vec<String>)>) -> Seq<
    (Seq<char>, Seq<Seq<char>>),
> {
    Seq::new(props.len(), |i: int| (props[i].0@, props[i].1.deep_view()))
}

/// The view of a state list.
pub open spec fn states_view(states: Seq<RawBlockState>) -> Seq<RawBlockStateView> {
    Seq::new(states.len(), |i: int| states[i]@)
}

impl View for RawBlockData {
    type V = RawBlockDataView;

    open spec fn view(&self) -> RawBlockDataView {
        RawBlockDataView {
            props: props_view(self.properties@),
            states: states_view(self.states@),
        }
    }
}

/// Product of the declared value-list sizes from position `i` on.
pub open spec fn prod_from(props: Seq<(Seq<char>, Seq<Seq<char>>)>, i: int) -> int
    decreases props.len() - i,
{
    if i < 0 || i >= props.len() {
        1
    } else {
        props[i].1.len() * prod_from(props, i + 1)
    }
}

/// The number of states a declared property list calls for: the product of
/// all its value-list sizes.
pub open spec fn state_count_spec(props: Seq<(Seq<char>, Seq<Seq<char>>)>) -> int {
    prod_from(props, 0)
}

/// A zero-sized property forces the whole product to zero.
pub proof fn lemma_prod_from_zero(props: Seq<(Seq<char>, Seq<Seq<char>>)>, i: int, j: int)
    requires
        0 <= j <= i < props.len(),
        props[i].1.len() == 0,
    ensures
        prod_from(props, j) == 0,
    decreases i - j,
{
    if j == i {
    } else {
        lemma_prod_from_zero(props, i, j + 1);
    }
}

/// With no zero-sized property from `i` on, the tail product is at least 1.
pub proof fn lemma_prod_from_pos(props: Seq<(Seq<char>, Seq<Seq<char>>)>, i: int)
    requires
        forall|k: int| i <= k < props.len() ==> #[trigger] props[k].1.len() > 0,
    ensures
        prod_from(props, i) >= 1,
    decreases props.len() - i,
{
    if 0 <= i < props.len() {
        lemma_prod_from_pos(props, i + 1);
        assert(props[i].1.len() * prod_from(props, i + 1) >= 1) by (nonlinear_arith)
            requires
                props[i].1.len() >= 1,
                prod_from(props, i + 1) >= 1,
        ;
    }
}

/// The classified declared properties, in declared order; properties whose
/// value list fails to classify are left out.
pub open spec fn classified_props(props: Seq<(Seq<char>, Seq<Seq<char>>)>) -> Seq<
    (Seq<char>, PropertyKindView),
>
    decreases props.len(),
{
    if props.len() == 0 {
        Seq::empty()
    } else {
        let rest = classified_props(props.drop_last());
        match classify_spec(props.last().1) {
            Ok(k) => rest.push((props.last().0, k)),
            Err(_) => rest,
        }
    }
}

/// The view of a classified property list.
pub open spec fn kind_pairs_view(pairs: Seq<(String, PropertyKind)>) -> Seq<
    (Seq<char>, PropertyKindView),
> {
    Seq::new(pairs.len(), |i: int| (pairs[i].0@, pairs[i].1@))
}

/// Every classified entry comes from a declared property: same name, and a
/// value list that classifies to exactly that kind.
pub proof fn lemma_classified_member(props: Seq<(Seq<char>, Seq<Seq<char>>)>, j: int)
    requires
        0 <= j < classified_props(props).len(),
    ensures
        exists|k: int|
            0 <= k < props.len() && classify_spec(#[trigger] props[k].1) == Ok::<
                PropertyKindView,
                crate::property::PropertyKindParseError,
            >(classified_props(props)[j].1) && props[k].0 == classified_props(props)[j].0,
    decreases props.len(),
{
    let cp = classified_props(props);
    if props.len() > 0 {
        let cpp = classified_props(props.drop_last());
        assert(forall|k: int|
            0 <= k < props.len() - 1 ==> #[trigger] props.drop_last()[k] == props[k]);
        match classify_spec(props.last().1) {
            Ok(kk) => {
                assert(cp == cpp.push((props.last().0, kk)));
                if j < cpp.len() {
                    lemma_classified_member(props.drop_last(), j);
                    let k = choose|k: int|
                        0 <= k < props.drop_last().len() && classify_spec(
                            #[trigger] props.drop_last()[k].1,
                        ) == Ok::<PropertyKindView, crate::property::PropertyKindParseError>(
                            cpp[j].1,
                        ) && props.drop_last()[k].0 == cpp[j].0;
                    assert(cp[j] == cpp[j]);
                    assert(classify_spec(props[k].1) == Ok::<
                        PropertyKindView,
                        crate::property::PropertyKindParseError,
                    >(cp[j].1) && props[k].0 == cp[j].0);
                } else {
                    assert(cp[j] == (props.last().0, kk));
                    assert(classify_spec(props[props.len() - 1].1) == Ok::<
                        PropertyKindView,
                        crate::property::PropertyKindParseError,
                    >(cp[j].1) && props[props.len() - 1].0 == cp[j].0);
                }
            },
            Err(_) => {
                assert(cp == cpp);
                lemma_classified_member(props.drop_last(), j);
                let k = choose|k: int|
                    0 <= k < props.drop_last().len() && classify_spec(
                        #[trigger] props.drop_last()[k].1,
                    ) == Ok::<PropertyKindView, crate::property::PropertyKindParseError>(cpp[j].1)
                        && props.drop_last()[k].0 == cpp[j].0;
                assert(classify_spec(props[k].1) == Ok::<
                    PropertyKindView,
                    crate::property::PropertyKindParseError,
                >(cp[j].1) && props[k].0 == cp[j].0);
            },
        }
    }
}

impl RawBlockData {
    /// Bundles one raw block.
    pub fn new(properties: Vec<(String, Vec<String>)>, states: Vec<RawBlockState>) -> (r:
        RawBlockData)
        ensures
            r@.props == props_view(properties@),
            r@.states == states_view(states@),
    {
        RawBlockData { properties, states }
    }

    /// Number of declared properties.
    pub fn property_count(&self) -> (r: usize)
        ensures
            r == self@.props.len(),
    {
        self.properties.len()
    }

    /// The number of states the declared properties call for, or `None` when
    /// that product does not fit in a machine word.
    pub fn state_count(&self) -> (r: Option<usize>)
        ensures
            r matches Some(c) ==> c as int == state_count_spec(self@.props),
            r is None ==> state_count_spec(self@.props) > usize::MAX,
    {
        let ghost props = self@.props;
        let n = self.properties.len();
        let mut i: usize = 0;
        while i < n
            invariant
                0 <= i <= n,
                n == self.properties.len(),
                props == self@.props,
                n == props.len(),
                forall|k: int| 0 <= k < i ==> #[trigger] props[k].1.len() > 0,
            decreases n - i,
        {
            if self.properties[i].1.len() == 0 {
                proof {
                    assert(props[i as int].1.len() == 0);
                    lemma_prod_from_zero(props, i as int, 0);
                }
                return Some(0);
            }
            assert(props[i as int].1.len() > 0);
            i = i + 1;
        }
        let mut acc: usize = 1;
        let mut j: usize = 0;
        while j < n
            invariant
                0 <= j <= n,
                n == self.properties.len(),
                props == self@.props,
                n == props.len(),
                acc >= 1,
                forall|k: int| 0 <= k < n ==> #[trigger] props[k].1.len() > 0,
                acc as int * prod_from(props, j as int) == state_count_spec(props),
            decreases n - j,
        {
            let sz = self.properties[j].1.len();
            assert(sz as int == props[j as int].1.len());
            match acc.checked_mul(sz) {
                Some(next) => {
                    proof {
                        assert(next as int * prod_from(props, j as int + 1) == acc as int
                            * prod_from(props, j as int) && next >= 1) by (nonlinear_arith)
                            requires
                                next as int == acc as int * sz as int,
                                acc >= 1,
                                sz >= 1,
                                prod_from(props, j as int) == sz as int * prod_from(
                                    props,
                                    j as int + 1,
                                ),
                        ;
                    }
                    acc = next;
                },
                None => {
                    proof {
                        lemma_prod_from_pos(props, j as int + 1);
                        assert(state_count_spec(props) > usize::MAX) by (nonlinear_arith)
                            requires
                                acc as int * sz as int > usize::MAX,
                                prod_from(props, j as int + 1) >= 1,
                                prod_from(props, j as int) == sz as int * prod_from(
                                    props,
                                    j as int + 1,
                                ),
                                acc as int * prod_from(props, j as int) == state_count_spec(
                                    props,
                                ),
                                acc >= 1,
                                sz >= 1,
                        ;
                    }
                    return None;
                },
            }
            j = j + 1;
        }
        Some(acc)
    }

    /// The declared properties that classify, each with its kind, in
    /// declared order.
    pub fn classified(&self) -> (r: Vec<(String, PropertyKind)>)
        ensures
            kind_pairs_view(r@) == classified_props(self@.props),
    {
        let ghost props = self@.props;
        let mut out: Vec<(String, PropertyKind)> = Vec::new();
        let n = self.properties.len();
        assert(props.take(0) =~= Seq::empty());
        assert(kind_pairs_view(out@) =~= classified_props(props.take(0)));
        let mut i: usize = 0;
        while i < n
            invariant
                0 <= i <= n,
                n == self.properties.len(),
                props == self@.props,
                n == props.len(),
                kind_pairs_view(out@) == classified_props(props.take(i as int)),
            decreases n - i,
        {
            proof {
                assert(props.take(i as int + 1).drop_last() =~= props.take(i as int));
                assert(props.take(i as int + 1).last() == props[i as int]);
            }
            match PropertyKind::classify(&self.properties[i].1) {
                Ok(kind) => {
                    assert(kind@ == classify_spec(props[i as int].1)->Ok_0);
                    let name = self.properties[i].0.clone();
                    out.push((name, kind));
                    assert(kind_pairs_view(out@) =~= classified_props(props.take(i as int + 1)));
                },
                Err(_) => {
                    assert(kind_pairs_view(out@) =~= classified_props(props.take(i as int + 1)));
                },
            }
            i = i + 1;
        }
        proof {
            assert(props.take(n as int) =~= props);
        }
        out
    }
}

/// The whole raw input: the blocks in input order, each under its key.
#[derive(Debug)]
pub struct RawBlockList {
    pub blocks: Vec<(Identifier, RawBlockData)>,
}

/// The view of the raw block table.
pub open spec fn raw_blocks_view(blocks: Seq<(Identifier, RawBlockData)>) -> Seq<
    (IdentifierView, RawBlockDataView),
> {
    Seq::new(blocks.len(), |i: int| (blocks[i].0@, blocks[i].1@))
}

impl View for RawBlockList {
    type V = Seq<(IdentifierView, RawBlockDataView)>;

    open spec fn view(&self) -> Seq<(IdentifierView, RawBlockDataView)> {
        raw_blocks_view(self.blocks@)
    }
}

impl RawBlockList {
    /// Bundles the raw input.
    pub fn new(blocks: Vec<(Identifier, RawBlockData)>) -> (r: RawBlockList)
        ensures
            r@ == raw_blocks_view(blocks@),
    {
        RawBlockList { blocks }
    }

    /// The raw blocks, in input order.
    pub fn blocks(&self) -> (r: &Vec<(Identifier, RawBlockData)>)
        ensures
            raw_blocks_view(r@) == self@,
    {
        &self.blocks
    }
}

} // verus!
