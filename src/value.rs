use vstd::prelude::*;

verus! {

/// One of the nine symbols a cell can hold, ordered from `N1` to `N9`.
#[derive(Clone, Copy, Debug, PartialEq, Eq, Structural, PartialOrd, Ord, Hash)]
pub enum Value {
    N1,
    N2,
    N3,
    N4,
    N5,
    N6,
    N7,
    N8,
    N9,
}

/// The nine values in their canonical ascending order.
pub open spec fn all_values() -> Seq<Value> {
    seq![
        Value::N1,
        Value::N2,
        Value::N3,
        Value::N4,
        Value::N5,
        Value::N6,
        Value::N7,
        Value::N8,
        Value::N9,
    ]
}

impl Value {
    /// The digit, 1 to 9, that the value stands for.
    pub open spec fn spec_digit(self) -> u8 {
        match self {
            Value::N1 => 1,
            Value::N2 => 2,
            Value::N3 => 3,
            Value::N4 => 4,
            Value::N5 => 5,
            Value::N6 => 6,
            Value::N7 => 7,
            Value::N8 => 8,
            Value::N9 => 9,
        }
    }

    /// The digit, 1 to 9, that the value stands for.
    pub fn digit(&self) -> (r: u8)
        ensures
            r == self.spec_digit(),
            1 <= r <= 9,
    {
        match self {
            Value::N1 => 1,
            Value::N2 => 2,
            Value::N3 => 3,
            Value::N4 => 4,
            Value::N5 => 5,
            Value::N6 => 6,
            Value::N7 => 7,
            Value::N8 => 8,
            Value::N9 => 9,
        }
    }

    /// The value whose digit is `d`, if `d` is one of 1 to 9.
    pub open spec fn spec_from_digit(d: u8) -> Option<Value> {
        if 1 <= d <= 9 {
            Some(all_values()[d - 1])
        } else {
            None
        }
    }

    /// The value whose digit is `d`, if `d` is one of 1 to 9.
    pub fn from_digit(d: u8) -> (r: Option<Value>)
        ensures
            r == Value::spec_from_digit(d),
            r matches Some(v) ==> v.spec_digit() == d,
    {
        match d {
            1 => Some(Value::N1),
            2 => Some(Value::N2),
            3 => Some(Value::N3),
            4 => Some(Value::N4),
            5 => Some(Value::N5),
            6 => Some(Value::N6),
            7 => Some(Value::N7),
            8 => Some(Value::N8),
            9 => Some(Value::N9),
            _ => None,
        }
    }

    /// The nine values in ascending order.
    pub fn all() -> (r: Vec<Value>)
        ensures
            r@ == all_values(),
    {
        let r = vec![
            Value::N1,
            Value::N2,
            Value::N3,
            Value::N4,
            Value::N5,
            Value::N6,
            Value::N7,
            Value::N8,
            Value::N9,
        ];
        assert(r@ =~= all_values());
        r
    }
}

/// Every value occurs in the canonical sequence, exactly once, at the
/// position given by its digit.
pub proof fn lemma_all_values(v: Value)
    ensures
        all_values().len() == 9,
        all_values()[v.spec_digit() - 1] == v,
        all_values().contains(v),
        forall|i: int| 0 <= i < 9 && #[trigger] all_values()[i] == v ==> i == v.spec_digit() - 1,
{
    assert(all_values()[v.spec_digit() - 1] == v);
}

/// A value is kept by a filter of the canonical sequence exactly when the
/// filter's predicate holds of it.
pub proof fn lemma_filter_values(f: spec_fn(Value) -> bool, v: Value)
    ensures
        all_values().filter(f).contains(v) <==> f(v),
{
    broadcast use vstd::seq_lib::group_filter_ensures;

    lemma_all_values(v);
    if f(v) {
        all_values().lemma_filter_contains(f, v.spec_digit() - 1);
    }
    if all_values().filter(f).contains(v) {
        let i = choose|i: int| 0 <= i < all_values().filter(f).len() && all_values().filter(f)[i] == v;
        all_values().lemma_filter_pred(f, i);
    }
}

} // verus!
