//! Mixed-radix verification of per-state numeric identifiers, and the
//! extraction of each block's base and default ids.
//!
//! A block's states are numbered odometer-style: walking the declared
//! properties in reverse, each property contributes its chosen value's index
//! weighted by the product of the sizes of all later-declared properties, so
//! the last declared property is the fastest-varying digit. The id of every
//! state must equal the block's base id (the id of its first declared state)
//! plus that offset.

use vstd::prelude::*;
use crate::errors::CompactError;
use crate::raw::{prod_from, state_count_spec, RawBlockData, RawBlockDataView, RawBlockState,
    RawBlockStateView};
use crate::table::{has_key, key_index, lemma_key_index, value_of};

verus! {

/// Index of the first occurrence of `v` in `vals`, or -1 when absent.
pub open spec fn first_index(vals: Seq<Seq<char>>, v: Seq<char>) -> int
    decreases vals.len(),
{
    if vals.len() == 0 {
        -1
    } else if vals[0] == v {
        0
    } else {
        let r = first_index(vals.drop_first(), v);
        if r == -1 {
            -1
        } else {
            1 + r
        }
    }
}

/// What `first_index` finds: the first occurrence, if any.
pub proof fn lemma_first_index(vals: Seq<Seq<char>>, v: Seq<char>)
    ensures
        vals.contains(v) <==> 0 <= first_index(vals, v) < vals.len(),
        !vals.contains(v) ==> first_index(vals, v) == -1,
        vals.contains(v) ==> vals[first_index(vals, v)] == v,
        forall|j: int| 0 <= j < first_index(vals, v) ==> vals[j] != v,
    decreases vals.len(),
{
    if vals.len() > 0 && vals[0] != v {
        lemma_first_index(vals.drop_first(), v);
        assert(forall|i: int|
            0 <= i < vals.drop_first().len() ==> #[trigger] vals.drop_first()[i] == vals[i + 1]);
        if vals.contains(v) {
            let i = choose|i: int| 0 <= i < vals.len() && vals[i] == v;
            assert(vals.drop_first()[i - 1] == v);
        }
        if vals.drop_first().contains(v) {
            let i = choose|i: int| 0 <= i < vals.drop_first().len() && vals.drop_first()[i] == v;
            assert(vals[i + 1] == v);
        }
        assert forall|j: int| 0 <= j < first_index(vals, v) implies vals[j] != v by {
            if j > 0 {
                assert(vals.drop_first()[j - 1] != v);
            }
        }
    }
}

/// A state's property-name set equals the block's declared set: the counts
/// agree and every declared name is assigned.
pub open spec fn shape_ok(
    props: Seq<(Seq<char>, Seq<Seq<char>>)>,
    assigns: Seq<(Seq<char>, Seq<char>)>,
) -> bool {
    &&& assigns.len() == props.len()
    &&& forall|k: int| 0 <= k < props.len() ==> has_key(assigns, #[trigger] props[k].0)
}

/// Every declared property's chosen value occurs in its declared value list.
pub open spec fn values_ok(
    props: Seq<(Seq<char>, Seq<Seq<char>>)>,
    assigns: Seq<(Seq<char>, Seq<char>)>,
) -> bool {
    forall|k: int| 0 <= k < props.len() ==> (#[trigger] props[k].1).contains(
        value_of(assigns, props[k].0),
    )
}

/// The mixed-radix offset contributed by declared properties `i` and later:
/// each chosen value's index, weighted by the product of the sizes of the
/// properties declared after it.
pub open spec fn offset_from(
    props: Seq<(Seq<char>, Seq<Seq<char>>)>,
    assigns: Seq<(Seq<char>, Seq<char>)>,
    i: int,
) -> int
    decreases props.len() - i,
{
    if i < 0 || i >= props.len() {
        0
    } else {
        first_index(props[i].1, value_of(assigns, props[i].0)) * prod_from(props, i + 1)
            + offset_from(props, assigns, i + 1)
    }
}

/// The full mixed-radix offset of a state.
pub open spec fn offset_of(
    props: Seq<(Seq<char>, Seq<Seq<char>>)>,
    assigns: Seq<(Seq<char>, Seq<char>)>,
) -> int {
    offset_from(props, assigns, 0)
}

/// What is wrong with one state, if anything: a shape violation dominates a
/// value violation, which dominates an id mismatch.
pub open spec fn state_error(
    props: Seq<(Seq<char>, Seq<Seq<char>>)>,
    base: int,
    st: RawBlockStateView,
) -> Option<CompactError> {
    if !shape_ok(props, st.assigns) {
        Some(CompactError::PropertyCountMismatch)
    } else if !values_ok(props, st.assigns) {
        Some(CompactError::UnknownPropertyValue)
    } else if st.id != base + offset_of(props, st.assigns) {
        Some(CompactError::IdMismatch)
    } else {
        None
    }
}

/// Index of the first failing state at or after `i`, or the state count when
/// all of them pass.
pub open spec fn first_bad_from(
    props: Seq<(Seq<char>, Seq<Seq<char>>)>,
    base: int,
    states: Seq<RawBlockStateView>,
    i: int,
) -> int
    decreases states.len() - i,
{
    if i < 0 || i >= states.len() {
        states.len() as int
    } else if state_error(props, base, states[i]) is Some {
        i
    } else {
        first_bad_from(props, base, states, i + 1)
    }
}

/// What `first_bad_from` finds.
pub proof fn lemma_first_bad_from(
    props: Seq<(Seq<char>, Seq<Seq<char>>)>,
    base: int,
    states: Seq<RawBlockStateView>,
    i: int,
)
    requires
        0 <= i <= states.len(),
    ensures
        i <= first_bad_from(props, base, states, i) <= states.len(),
        forall|k: int| i <= k < first_bad_from(props, base, states, i) ==> state_error(
            props,
            base,
            #[trigger] states[k],
        ) is None,
        first_bad_from(props, base, states, i) < states.len() ==> state_error(
            props,
            base,
            states[first_bad_from(props, base, states, i)],
        ) is Some,
    decreases states.len() - i,
{
    if i < states.len() && state_error(props, base, states[i]) is None {
        lemma_first_bad_from(props, base, states, i + 1);
    }
}

/// The id of the last state the input flags as default, if any.
pub open spec fn last_default(states: Seq<RawBlockStateView>) -> Option<int>
    decreases states.len(),
{
    if states.len() == 0 {
        None
    } else if states.last().default {
        Some(states.last().id)
    } else {
        last_default(states.drop_last())
    }
}

/// The block's default id: the last flagged state's id, kept only when it
/// differs from the base id. A block with no flagged state falls back to its
/// base id, and so records no default.
pub open spec fn default_spec(states: Seq<RawBlockStateView>, base: int) -> Option<int> {
    match last_default(states) {
        Some(id) => if id != base {
            Some(id)
        } else {
            None
        },
        None => None,
    }
}

/// What verifying one block yields: its base and default ids, or the first
/// failure in declared state order, a state-count mismatch first of all.
pub open spec fn block_check(v: RawBlockDataView) -> Result<(int, Option<int>), CompactError> {
    if v.states.len() == 0 || v.states.len() != state_count_spec(v.props) {
        Err(CompactError::StateCountMismatch)
    } else {
        let base = v.states[0].id;
        let fb = first_bad_from(v.props, base, v.states, 0);
        if fb < v.states.len() {
            Err(state_error(v.props, base, v.states[fb])->Some_0)
        } else {
            Ok((base, default_spec(v.states, base)))
        }
    }
}

/// A nonzero state count forces every declared property to have at least one
/// value.
proof fn lemma_sizes_pos(props: Seq<(Seq<char>, Seq<Seq<char>>)>)
    requires
        prod_from(props, 0) >= 1,
    ensures
        forall|k: int| 0 <= k < props.len() ==> (#[trigger] props[k].1).len() > 0,
{
    assert forall|k: int| 0 <= k < props.len() implies (#[trigger] props[k].1).len() > 0 by {
        if props[k].1.len() == 0 {
            crate::raw::lemma_prod_from_zero(props, k, 0);
        }
    }
}

/// With no empty property, the tail products shrink going right.
proof fn lemma_prod_from_mono(props: Seq<(Seq<char>, Seq<Seq<char>>)>, i: int, j: int)
    requires
        0 <= i <= j <= props.len(),
        forall|k: int| 0 <= k < props.len() ==> (#[trigger] props[k].1).len() > 0,
    ensures
        prod_from(props, j) <= prod_from(props, i),
    decreases j - i,
{
    if i < j {
        lemma_prod_from_mono(props, i + 1, j);
        crate::raw::lemma_prod_from_pos(props, i + 1);
        assert(props[i].1.len() * prod_from(props, i + 1) >= prod_from(props, i + 1))
            by (nonlinear_arith)
            requires
                props[i].1.len() >= 1,
                prod_from(props, i + 1) >= 1,
        ;
    }
}

fn find_assign<'a>(assigns: &'a Vec<(String, String)>, name: &String) -> (r: Option<&'a String>)
    ensures
        r matches Some(v) ==> has_key(crate::raw::assigns_view(assigns@), name@) && v@ == value_of(
            crate::raw::assigns_view(assigns@),
            name@,
        ),
        r is None ==> !has_key(crate::raw::assigns_view(assigns@), name@),
{
    let ghost av = crate::raw::assigns_view(assigns@);
    proof {
        lemma_key_index(av, name@);
    }
    let n = assigns.len();
    let mut i: usize = 0;
    while i < n
        invariant
            0 <= i <= n,
            n == assigns.len(),
            av == crate::raw::assigns_view(assigns@),
            n == av.len(),
            forall|j: int| 0 <= j < i ==> #[trigger] av[j].0 != name@,
        decreases n - i,
    {
        if assigns[i].0.eq(name) {
            assert(av[i as int].0 == name@);
            proof {
                lemma_key_index(av, name@);
                assert(key_index(av, name@) == i as int);
            }
            return Some(&assigns[i].1);
        }
        i = i + 1;
    }
    None
}

fn find_value(vals: &Vec<String>, v: &String) -> (r: Option<usize>)
    ensures
        r matches Some(i) ==> {
            &&& vals.deep_view().contains(v@)
            &&& i as int == first_index(vals.deep_view(), v@)
            &&& i < vals.len()
        },
        r is None ==> !vals.deep_view().contains(v@),
{
    let ghost vv = vals.deep_view();
    proof {
        lemma_first_index(vv, v@);
    }
    let n = vals.len();
    let mut i: usize = 0;
    while i < n
        invariant
            0 <= i <= n,
            n == vals.len(),
            vv == vals.deep_view(),
            n == vv.len(),
            forall|j: int| 0 <= j < i ==> vv[j] != v@,
        decreases n - i,
    {
        if vals[i].eq(v) {
            assert(vv[i as int] == v@);
            assert(vv.contains(v@));
            proof {
                lemma_first_index(vv, v@);
                assert(first_index(vv, v@) == i as int);
            }
            return Some(i);
        }
        i = i + 1;
    }
    proof {
        if vv.contains(v@) {
            let j = choose|j: int| 0 <= j < vv.len() && vv[j] == v@;
            assert(vv[j] != v@);
        }
    }
    None
}

/// Verifies one state against the declared properties: its shape, its chosen
/// values, and its mixed-radix id.
fn verify_state(block: &RawBlockData, state: &RawBlockState, base: i32, c: usize) -> (r: Result<
    (),
    CompactError,
>)
    requires
        c as int == state_count_spec(block@.props),
        c >= 1,
    ensures
        r is Ok <==> state_error(block@.props, base as int, state@) is None,
        r matches Err(e) ==> state_error(block@.props, base as int, state@) == Some(e),
{
    let ghost props = block@.props;
    let ghost assigns = state@.assigns;
    proof {
        lemma_sizes_pos(props);
    }
    let n = block.properties.len();
    if state.properties.len() != n {
        assert(!shape_ok(props, assigns));
        return Err(CompactError::PropertyCountMismatch);
    }
    // Every declared name must be assigned.
    let mut k: usize = 0;
    while k < n
        invariant
            0 <= k <= n,
            n == block.properties.len(),
            props == block@.props,
            assigns == state@.assigns,
            n == props.len(),
            forall|j: int| 0 <= j < k ==> has_key(assigns, #[trigger] props[j].0),
        decreases n - k,
    {
        match find_assign(&state.properties, &block.properties[k].0) {
            Some(_) => {},
            None => {
                assert(!has_key(assigns, props[k as int].0));
                assert(!shape_ok(props, assigns));
                return Err(CompactError::PropertyCountMismatch);
            },
        }
        k = k + 1;
    }
    assert(shape_ok(props, assigns));
    // Walk the declared properties in reverse, accumulating the offset.
    let mut factor: usize = 1;
    let mut radix: usize = 1;
    let mut offset: usize = 0;
    let mut i: usize = n;
    while i > 0
        invariant
            0 <= i <= n,
            n == block.properties.len(),
            n == state.properties.len(),
            props == block@.props,
            assigns == state@.assigns,
            n == props.len(),
            c as int == prod_from(props, 0),
            c >= 1,
            shape_ok(props, assigns),
            forall|kk: int| 0 <= kk < props.len() ==> (#[trigger] props[kk].1).len() > 0,
            factor as int * radix as int == prod_from(props, i as int),
            offset as int == offset_from(props, assigns, i as int),
            offset as int <= prod_from(props, i as int) - 1,
            forall|kk: int| i <= kk < n ==> (#[trigger] props[kk].1).contains(
                value_of(assigns, props[kk].0),
            ),
        decreases i,
    {
        i = i - 1;
        proof {
            lemma_prod_from_mono(props, i as int, n as int);
            lemma_prod_from_mono(props, 0, i as int);
            lemma_prod_from_mono(props, 0, i as int + 1);
            crate::raw::lemma_prod_from_pos(props, i as int);
            crate::raw::lemma_prod_from_pos(props, i as int + 1);
            assert(prod_from(props, i as int) <= c);
            assert(prod_from(props, i as int + 1) <= c);
            assert(factor as int * radix as int <= usize::MAX);
        }
        let nf = factor * radix;
        assert(nf as int == prod_from(props, i as int + 1)) by {
            assert(factor as int * radix as int == prod_from(props, i as int + 1));
        }
        let value = match find_assign(&state.properties, &block.properties[i].0) {
            Some(v) => v,
            None => {
                proof {
                    assert(has_key(assigns, props[i as int].0));
                    assert(false);
                }
                return Err(CompactError::PropertyCountMismatch);
            },
        };
        let idx = match find_value(&block.properties[i].1, value) {
            Some(idx) => idx,
            None => {
                assert(value@ == value_of(assigns, props[i as int].0));
                assert(!props[i as int].1.contains(value_of(assigns, props[i as int].0)));
                assert(!values_ok(props, assigns));
                return Err(CompactError::UnknownPropertyValue);
            },
        };
        let sz = block.properties[i].1.len();
        proof {
            assert(props[i as int].1 == block.properties@[i as int].1.deep_view());
            assert(sz as int == props[i as int].1.len());
            assert(idx as int == first_index(props[i as int].1, value_of(assigns, props[i as int].0)));
            assert(idx < sz);
            assert(prod_from(props, i as int) == sz as int * prod_from(props, i as int + 1));
            assert(nf as int * idx as int + offset as int <= prod_from(props, i as int) - 1)
                by (nonlinear_arith)
                requires
                    idx as int <= sz as int - 1,
                    nf as int == prod_from(props, i as int + 1),
                    offset as int <= prod_from(props, i as int + 1) - 1,
                    prod_from(props, i as int) == sz as int * prod_from(props, i as int + 1),
                    nf >= 0,
                    idx >= 0,
                    offset >= 0,
            ;
            assert(prod_from(props, i as int) - 1 <= c - 1);
        }
        let term = nf * idx;
        offset = offset + term;
        factor = nf;
        radix = sz;
        proof {
            assert(factor as int * radix as int == prod_from(props, i as int)) by (nonlinear_arith)
                requires
                    factor as int == prod_from(props, i as int + 1),
                    radix as int == props[i as int].1.len(),
                    prod_from(props, i as int) == props[i as int].1.len() * prod_from(
                        props,
                        i as int + 1,
                    ),
            ;
            assert(offset_from(props, assigns, i as int) == first_index(
                props[i as int].1,
                value_of(assigns, props[i as int].0),
            ) * prod_from(props, i as int + 1) + offset_from(props, assigns, i as int + 1));
            assert(offset as int == offset_from(props, assigns, i as int)) by (nonlinear_arith)
                requires
                    offset as int == offset_from(props, assigns, i as int + 1) + nf as int
                        * idx as int,
                    offset_from(props, assigns, i as int) == idx as int * prod_from(
                        props,
                        i as int + 1,
                    ) + offset_from(props, assigns, i as int + 1),
                    nf as int == prod_from(props, i as int + 1),
            ;
        }
    }
    assert(values_ok(props, assigns));
    assert(offset as int == offset_of(props, assigns));
    let predicted: i128 = (base as i128) + (offset as i128);
    if predicted != (state.id as i128) {
        assert(state@.id != base as int + offset_of(props, assigns));
        return Err(CompactError::IdMismatch);
    }
    assert(state@.id == base as int + offset_of(props, assigns));
    Ok(())
}

/// Verifies a whole block, as `block_check` states: checks the state count,
/// then every state's shape, values, and mixed-radix id in declared order,
/// and extracts the base id and the default id.
pub fn verify_block(block: &RawBlockData) -> (r: Result<(i32, Option<i32>), CompactError>)
    ensures
        r is Ok <==> block_check(block@) is Ok,
        r matches Ok(p) ==> {
            &&& block_check(block@) matches Ok(q)
            &&& p.0 as int == q.0
            &&& (match p.1 {
                Some(d) => q.1 == Some(d as int),
                None => q.1 is None,
            })
        },
        r matches Err(e) ==> block_check(block@) == Err::<(int, Option<int>), CompactError>(e),
{
    let ghost v = block@;
    let n = block.states.len();
    assert(n as int == v.states.len());
    let c = match block.state_count() {
        Some(c) => c,
        None => {
            assert(state_count_spec(v.props) > usize::MAX);
            assert(v.states.len() != state_count_spec(v.props));
            return Err(CompactError::StateCountMismatch);
        },
    };
    if n == 0 || n != c {
        return Err(CompactError::StateCountMismatch);
    }
    let base = block.states[0].id;
    assert(base as int == v.states[0].id);
    let ghost fb = first_bad_from(v.props, base as int, v.states, 0);
    let mut flagged: Option<i32> = None;
    assert(v.states.take(0) =~= Seq::empty());
    let mut i: usize = 0;
    while i < n
        invariant
            0 <= i <= n,
            n == block.states.len(),
            v == block@,
            n == v.states.len(),
            n == c,
            c as int == state_count_spec(v.props),
            c >= 1,
            base as int == v.states[0].id,
            forall|j: int| 0 <= j < i ==> state_error(v.props, base as int, #[trigger] v.states[j])
                is None,
            (match flagged {
                Some(d) => last_default(v.states.take(i as int)) == Some(d as int),
                None => last_default(v.states.take(i as int)) is None,
            }),
        decreases n - i,
    {
        let st = &block.states[i];
        assert(st@ == v.states[i as int]);
        match verify_state(block, st, base, c) {
            Ok(_) => {},
            Err(e) => {
                proof {
                    lemma_first_bad_from(v.props, base as int, v.states, 0);
                    assert(first_bad_from(v.props, base as int, v.states, 0) == i as int) by {
                        let f = first_bad_from(v.props, base as int, v.states, 0);
                        if f < i as int {
                            assert(state_error(v.props, base as int, v.states[f]) is None);
                        }
                        if f > i as int {
                            assert(state_error(v.props, base as int, v.states[i as int]) is None);
                        }
                    }
                }
                return Err(e);
            },
        }
        if st.default {
            flagged = Some(st.id);
        }
        proof {
            assert(v.states.take(i as int + 1).drop_last() =~= v.states.take(i as int));
            assert(v.states.take(i as int + 1).last() == v.states[i as int]);
        }
        i = i + 1;
    }
    proof {
        assert(v.states.take(n as int) =~= v.states);
        lemma_first_bad_from(v.props, base as int, v.states, 0);
        assert(first_bad_from(v.props, base as int, v.states, 0) == n as int) by {
            let f = first_bad_from(v.props, base as int, v.states, 0);
            if f < n as int {
                assert(state_error(v.props, base as int, v.states[f]) is None);
            }
        }
    }
    let default_id: Option<i32> = match flagged {
        Some(d) => if d != base {
            Some(d)
        } else {
            None
        },
        None => None,
    };
    Ok((base, default_id))
}

/// Every state of a block that the verifier accepts carries exactly the id
/// the mixed-radix scheme predicts: the block's base id plus the state's
/// offset under the declared property order.
pub proof fn lemma_verified_ids(v: RawBlockDataView, i: int)
    requires
        block_check(v) is Ok,
        0 <= i < v.states.len(),
    ensures
        v.states[i].id == v.states[0].id + offset_of(v.props, v.states[i].assigns),
{
    let base = v.states[0].id;
    lemma_first_bad_from(v.props, base, v.states, 0);
    assert(state_error(v.props, base, v.states[i]) is None);
}

/// A block the verifier accepts has exactly as many states as the product of
/// its declared property sizes, and at least one.
pub proof fn lemma_verified_state_count(v: RawBlockDataView)
    requires
        block_check(v) is Ok,
    ensures
        v.states.len() == state_count_spec(v.props),
        v.states.len() >= 1,
{
}

} // verus!
