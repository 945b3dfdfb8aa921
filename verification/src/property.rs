//! Classification of a raw, ordered list of property value tokens into one of
//! the three property kinds: Boolean, integer range, or enumeration.
//!
//! A list is Boolean exactly when it is `["true", "false"]`; it is an integer
//! range when its first and last entries are decimal numbers that fit in a
//! `u8`; otherwise it is an enumeration holding the values verbatim, in input
//! order.

use vstd::prelude::*;

verus! {

/// A decimal digit.
pub open spec fn is_dec_digit(c: char) -> bool {
    '0' <= c && c <= '9'
}

/// Numeric value of a single decimal digit.
pub open spec fn digit_val(c: char) -> int {
    c as int - '0' as int
}

/// Every character of `s` is a decimal digit.
pub open spec fn all_digits(s: Seq<char>) -> bool {
    forall|i: int| 0 <= i < s.len() ==> is_dec_digit(#[trigger] s[i])
}

/// Numeric value of a digit string, most significant digit first.
pub open spec fn digits_val(s: Seq<char>) -> int
    decreases s.len(),
{
    if s.len() == 0 {
        0
    } else {
        digits_val(s.drop_last()) * 10 + digit_val(s.last())
    }
}

/// The digits of a numeral: an optional leading plus sign is dropped.
pub open spec fn numeral_body(s: Seq<char>) -> Seq<char> {
    if s.len() > 0 && s[0] == '+' {
        s.drop_first()
    } else {
        s
    }
}

/// `s` is a decimal numeral whose value fits in a `u8`: one or more digits
/// after an optional plus sign, no surrounding space.
pub open spec fn parses_to_u8(s: Seq<char>) -> bool {
    numeral_body(s).len() > 0 && all_digits(numeral_body(s)) && digits_val(numeral_body(s)) <= 255
}

/// The value of a numeral.
pub open spec fn numeral_val(s: Seq<char>) -> int {
    digits_val(numeral_body(s))
}

proof fn lemma_digits_val_nonneg(s: Seq<char>)
    requires
        all_digits(s),
    ensures
        digits_val(s) >= 0,
    decreases s.len(),
{
    if s.len() > 0 {
        assert(all_digits(s.drop_last()));
        lemma_digits_val_nonneg(s.drop_last());
    }
}

proof fn lemma_digits_val_step(s: Seq<char>, i: int)
    requires
        0 <= i < s.len(),
    ensures
        digits_val(s.take(i + 1)) == digits_val(s.take(i)) * 10 + digit_val(s[i]),
{
    assert(s.take(i + 1).drop_last() =~= s.take(i));
    assert(s.take(i + 1).last() == s[i]);
}

/// Once a digit prefix exceeds 255, every extension of it does too.
proof fn lemma_digits_val_grows(s: Seq<char>, i: int)
    requires
        all_digits(s),
        0 <= i <= s.len(),
        digits_val(s.take(i)) > 255,
    ensures
        digits_val(s) > 255,
    decreases s.len() - i,
{
    if i == s.len() {
        assert(s.take(i) =~= s);
    } else {
        lemma_digits_val_step(s, i);
        assert(digits_val(s.take(i + 1)) > 255);
        lemma_digits_val_grows(s, i + 1);
    }
}

fn parse_digits(s: &str, st: usize) -> (r: Option<u8>)
    requires
        st as int <= s@.len(),
    ensures
        ({
            let body = s@.subrange(st as int, s@.len() as int);
            &&& (r is Some <==> (body.len() > 0 && all_digits(body) && digits_val(body) <= 255))
            &&& (r matches Some(v) ==> v as int == digits_val(body))
        }),
{
    let ghost body = s@.subrange(st as int, s@.len() as int);
    let n = s.unicode_len();
    if st == n {
        assert(body.len() == 0);
        return None;
    }
    let mut acc: u32 = 0;
    let mut i: usize = st;
    while i < n
        invariant
            st <= i <= n,
            st < n,
            n == s@.len(),
            body == s@.subrange(st as int, s@.len() as int),
            acc <= 255,
            all_digits(body.take(i - st)),
            acc as int == digits_val(body.take(i - st)),
        decreases n - i,
    {
        let c = s.get_char(i);
        assert(body[i - st] == s@[i as int]);
        if c < '0' || c > '9' {
            proof {
                assert(!is_dec_digit(body[i - st]));
                assert(!all_digits(body));
            }
            return None;
        }
        let d: u32 = (c as u32) - ('0' as u32);
        proof {
            lemma_digits_val_step(body, i - st);
        }
        let next: u32 = acc * 10 + d;
        if next > 255 {
            proof {
                assert(digits_val(body.take(i - st + 1)) > 255);
                if all_digits(body) {
                    lemma_digits_val_grows(body, i - st + 1);
                }
            }
            return None;
        }
        acc = next;
        i = i + 1;
    }
    proof {
        assert(body.take(n - st) =~= body);
    }
    Some(acc as u8)
}

/// Parses a decimal numeral into a `u8`: one or more digits after an
/// optional plus sign, no surrounding space, value at most 255.
pub fn parse_u8(s: &str) -> (r: Option<u8>)
    ensures
        r is Some <==> parses_to_u8(s@),
        r matches Some(v) ==> v as int == numeral_val(s@),
{
    let n = s.unicode_len();
    let st: usize = if n > 0 && s.get_char(0) == '+' {
        1
    } else {
        0
    };
    proof {
        assert(s@.subrange(st as int, n as int) =~= numeral_body(s@));
    }
    parse_digits(s, st)
}

/// An ordered list of enumerated value tokens, kept verbatim in input order.
#[derive(Debug)]
pub struct EnumProperty {
    values: Vec<String>,
}

impl View for EnumProperty {
    type V = Seq<Seq<char>>;

    closed spec fn view(&self) -> Seq<Seq<char>> {
        self.values.deep_view()
    }
}

impl DeepView for EnumProperty {
    type V = Seq<Seq<char>>;

    open spec fn deep_view(&self) -> Seq<Seq<char>> {
        self.view()
    }
}

impl EnumProperty {
    /// Builds an enumeration from its value tokens.
    pub fn new(values: Vec<String>) -> (r: EnumProperty)
        ensures
            r@ == values.deep_view(),
    {
        EnumProperty { values }
    }

    /// The value tokens, in declared order.
    pub fn fields(&self) -> (r: &Vec<String>)
        ensures
            r.deep_view() == self@,
    {
        &self.values
    }

    /// Consumes the enumeration, handing its value tokens back.
    pub fn fields_owned(self) -> (r: Vec<String>)
        ensures
            r.deep_view() == self@,
    {
        self.values
    }

    /// Number of values in the enumeration.
    pub fn value_count(&self) -> (r: usize)
        ensures
            r == self@.len(),
    {
        self.values.len()
    }

    /// A copy of this enumeration with the same values.
    pub fn duplicate(&self) -> (r: EnumProperty)
        ensures
            r@ == self@,
    {
        let copy = self.values.clone();
        proof {
            vstd::std_specs::vec::vec_clone_deep_view_proof::<String, std::alloc::Global>(
                self.values,
                copy,
            );
        }
        EnumProperty { values: copy }
    }

    /// Whether the two enumerations hold the same values in the same order.
    pub fn same_values(&self, other: &EnumProperty) -> (r: bool)
        ensures
            r == (self@ == other@),
    {
        if self.values.len() != other.values.len() {
            assert(self@.len() != other@.len());
            return false;
        }
        let n = self.values.len();
        let mut i: usize = 0;
        while i < n
            invariant
                0 <= i <= n,
                n == self@.len() == other@.len(),
                n == self.values.len() == other.values.len(),
                forall|j: int| 0 <= j < i ==> self@[j] == other@[j],
            decreases n - i,
        {
            if !self.values[i].eq(&other.values[i]) {
                assert(self@[i as int] != other@[i as int]);
                return false;
            }
            i = i + 1;
        }
        proof {
            assert(self@ =~= other@);
        }
        true
    }
}

/// The reasons a raw value list can fail to classify.
#[derive(Debug, Clone, Copy, PartialEq, Eq, Structural)]
pub enum PropertyKindParseError {
    /// The list starts `"true", "false"` but has more than two entries.
    BooleanTooLong,
    /// The list starts with `"true"` but its second entry is not `"false"`.
    BooleanInvalidType,
    /// The first entry is a number but the last entry is not.
    IntError,
}

/// Mathematical image of a classified property kind.
pub enum PropertyKindView {
    Bool,
    Int(u8, u8),
    Enum(Seq<Seq<char>>),
}

/// The kind of a block property: Boolean, inclusive integer range, or
/// enumeration.
#[derive(Debug)]
pub enum PropertyKind {
    Bool,
    Int(u8, u8),
    Enum(EnumProperty),
}

impl View for PropertyKind {
    type V = PropertyKindView;

    open spec fn view(&self) -> PropertyKindView {
        match self {
            PropertyKind::Bool => PropertyKindView::Bool,
            PropertyKind::Int(lo, hi) => PropertyKindView::Int(*lo, *hi),
            PropertyKind::Enum(e) => PropertyKindView::Enum(e@),
        }
    }
}

/// Result of classifying an ordered raw value list.
pub open spec fn classify_spec(vals: Seq<Seq<char>>) -> Result<
    PropertyKindView,
    PropertyKindParseError,
> {
    if vals.len() > 0 && vals[0] == "true"@ {
        if vals.len() >= 2 && vals[1] == "false"@ {
            if vals.len() == 2 {
                Ok(PropertyKindView::Bool)
            } else {
                Err(PropertyKindParseError::BooleanTooLong)
            }
        } else {
            Err(PropertyKindParseError::BooleanInvalidType)
        }
    } else if vals.len() > 0 && parses_to_u8(vals[0]) {
        if parses_to_u8(vals.last()) {
            Ok(
                PropertyKindView::Int(
                    numeral_val(vals[0]) as u8,
                    numeral_val(vals.last()) as u8,
                ),
            )
        } else {
            Err(PropertyKindParseError::IntError)
        }
    } else {
        Ok(PropertyKindView::Enum(vals))
    }
}

impl PropertyKind {
    /// Classifies an ordered raw value list as Boolean, integer range, or
    /// enumeration, exactly as `classify_spec` states.
    pub fn classify(values: &Vec<String>) -> (r: Result<PropertyKind, PropertyKindParseError>)
        ensures
            r is Ok <==> classify_spec(values.deep_view()) is Ok,
            r matches Ok(k) ==> k@ == classify_spec(values.deep_view())->Ok_0,
            r matches Err(e) ==> e == classify_spec(values.deep_view())->Err_0,
    {
        let ghost vd = values.deep_view();
        if values.len() > 0 && values[0].eq(&String::from_str("true")) {
            assert(vd[0] == "true"@);
            if values.len() >= 2 && values[1].eq(&String::from_str("false")) {
                if values.len() == 2 {
                    Ok(PropertyKind::Bool)
                } else {
                    Err(PropertyKindParseError::BooleanTooLong)
                }
            } else {
                assert(!(vd.len() >= 2 && vd[1] == "false"@));
                Err(PropertyKindParseError::BooleanInvalidType)
            }
        } else if values.len() > 0 {
            assert(!(vd.len() > 0 && vd[0] == "true"@));
            match parse_u8(values[0].as_str()) {
                Some(first) => {
                    match parse_u8(values[values.len() - 1].as_str()) {
                        Some(second) => {
                            assert(vd.last() == vd[vd.len() - 1]);
                            Ok(PropertyKind::Int(first, second))
                        },
                        None => Err(PropertyKindParseError::IntError),
                    }
                },
                None => {
                    let prop = EnumProperty::new(values.clone());
                    proof {
                        vstd::std_specs::vec::vec_clone_deep_view_proof::<String, std::alloc::Global>(
                            *values,
                            prop.values,
                        );
                    }
                    Ok(PropertyKind::Enum(prop))
                },
            }
        } else {
            assert(vd.len() == 0);
            let prop = EnumProperty::new(Vec::new());
            assert(prop@ =~= vd);
            Ok(PropertyKind::Enum(prop))
        }
    }

    /// Number of states this kind contributes: 2 for Boolean, the width of an
    /// integer range, the value count of an enumeration.
    pub open spec fn spec_size(&self) -> int {
        match self@ {
            PropertyKindView::Bool => 2,
            PropertyKindView::Int(lo, hi) => hi - lo + 1,
            PropertyKindView::Enum(vals) => vals.len() as int,
        }
    }

    /// Whether an integer range is declared low end first.
    pub open spec fn range_ordered(&self) -> bool {
        match self@ {
            PropertyKindView::Int(lo, hi) => lo <= hi,
            _ => true,
        }
    }

    /// Number of distinct values of this kind.
    pub fn len(&self) -> (r: usize)
        requires
            self.range_ordered(),
        ensures
            r == self.spec_size(),
    {
        match self {
            PropertyKind::Bool => 2,
            PropertyKind::Int(lo, hi) => (*hi as usize) - (*lo as usize) + 1,
            PropertyKind::Enum(values) => values.value_count(),
        }
    }

    /// Whether the kind admits no value at all; only an empty enumeration
    /// does.
    pub fn is_empty(&self) -> (r: bool)
        requires
            self.range_ordered(),
        ensures
            r == (self.spec_size() == 0),
    {
        match self {
            PropertyKind::Bool => false,
            PropertyKind::Int(_, _) => false,
            PropertyKind::Enum(values) => values.value_count() == 0,
        }
    }

    /// A copy of this kind with the same view.
    pub fn duplicate(&self) -> (r: PropertyKind)
        ensures
            r@ == self@,
    {
        match self {
            PropertyKind::Bool => PropertyKind::Bool,
            PropertyKind::Int(lo, hi) => PropertyKind::Int(*lo, *hi),
            PropertyKind::Enum(e) => PropertyKind::Enum(e.duplicate()),
        }
    }

    /// Whether the kind is an enumeration.
    pub fn is_enum(&self) -> (r: bool)
        ensures
            r == (self@ is Enum),
    {
        match self {
            PropertyKind::Enum(_) => true,
            _ => false,
        }
    }

    /// Whether the kind is an integer range.
    pub fn is_range(&self) -> (r: bool)
        ensures
            r == (self@ is Int),
    {
        match self {
            PropertyKind::Int(_, _) => true,
            _ => false,
        }
    }
}

} // verus!
