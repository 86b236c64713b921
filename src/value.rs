use vstd::prelude::*;

verus! {

/// Declared type of a column.
#[derive(Clone, Copy, Debug, PartialEq, Eq, Structural)]
pub enum ColumnType {
    Null,
    Integer,
    Float,
    Text,
    Foreign,
}

/// A typed cell value. A float is held as its IEEE-754 binary64 bit pattern;
/// a foreign value is the id of a referenced row, `0` meaning "no reference".
#[derive(Clone, Debug)]
pub enum Value {
    Null,
    Integer(i64),
    Float(u64),
    Text(String),
    Foreign(i64),
}

pub open spec fn type_of(v: Value) -> ColumnType {
    match v {
        Value::Null => ColumnType::Null,
        Value::Integer(_) => ColumnType::Integer,
        Value::Float(_) => ColumnType::Float,
        Value::Text(_) => ColumnType::Text,
        Value::Foreign(_) => ColumnType::Foreign,
    }
}

/// The row a value refers to: its id for a foreign value, else `0`.
pub open spec fn ref_of(v: Value) -> i64 {
    match v {
        Value::Foreign(id) => id,
        _ => 0,
    }
}

pub const SIGN_BIT: u64 = 0x8000_0000_0000_0000;

pub const MANTISSA_SPAN: u64 = 0x10_0000_0000_0000;

/// A bit pattern is NaN when its exponent field is all ones and its fraction is non-zero.
pub open spec fn float_is_nan(b: u64) -> bool {
    (b / MANTISSA_SPAN) % 2048 == 2047 && b % MANTISSA_SPAN != 0
}

/// Position of a non-NaN float on the number line, up to scale: both zeros map to `0`.
pub open spec fn float_key(b: u64) -> int {
    if b / SIGN_BIT == 0 {
        (b % SIGN_BIT) as int
    } else {
        -((b % SIGN_BIT) as int)
    }
}

/// IEEE-754 equality: NaN equals nothing, and the two zeros are equal.
pub open spec fn float_eq(a: u64, b: u64) -> bool {
    !float_is_nan(a) && !float_is_nan(b) && float_key(a) == float_key(b)
}

/// IEEE-754 `<`: false whenever either side is NaN.
pub open spec fn float_lt(a: u64, b: u64) -> bool {
    !float_is_nan(a) && !float_is_nan(b) && float_key(a) < float_key(b)
}

/// Lexicographic order on character sequences, by code point.
pub open spec fn text_lt(a: Seq<char>, b: Seq<char>) -> bool {
    exists|k: int|
        0 <= k <= a.len() && k <= b.len() && (forall|j: int| 0 <= j < k ==> a[j] == b[j]) && ((k
            == a.len() && k < b.len()) || (k < a.len() && k < b.len() && (a[k] as u32) < (
        b[k] as u32)))
}

/// Equality between two values; values of different variants are never equal.
pub open spec fn value_eq(a: Value, b: Value) -> bool {
    match (a, b) {
        (Value::Null, Value::Null) => true,
        (Value::Integer(x), Value::Integer(y)) => x == y,
        (Value::Float(x), Value::Float(y)) => float_eq(x, y),
        (Value::Text(x), Value::Text(y)) => x@ == y@,
        (Value::Foreign(x), Value::Foreign(y)) => x == y,
        _ => false,
    }
}

/// Strict order, defined for integers, floats and texts of the same variant.
pub open spec fn value_lt(a: Value, b: Value) -> bool {
    match (a, b) {
        (Value::Integer(x), Value::Integer(y)) => x < y,
        (Value::Float(x), Value::Float(y)) => float_lt(x, y),
        (Value::Text(x), Value::Text(y)) => text_lt(x@, y@),
        _ => false,
    }
}

pub open spec fn value_le(a: Value, b: Value) -> bool {
    value_lt(a, b) || value_eq(a, b)
}

impl Value {
    pub fn column_type(&self) -> (r: ColumnType)
        ensures
            r == type_of(*self),
    {
        match self {
            Value::Null => ColumnType::Null,
            Value::Integer(_) => ColumnType::Integer,
            Value::Float(_) => ColumnType::Float,
            Value::Text(_) => ColumnType::Text,
            Value::Foreign(_) => ColumnType::Foreign,
        }
    }

    /// An exact copy of the value.
    pub fn copy(&self) -> (r: Value)
        ensures
            r == *self,
    {
        match self {
            Value::Null => Value::Null,
            Value::Integer(x) => Value::Integer(*x),
            Value::Float(x) => Value::Float(*x),
            Value::Text(s) => Value::Text(s.clone()),
            Value::Foreign(x) => Value::Foreign(*x),
        }
    }
}

pub fn float_is_nan_exec(b: u64) -> (r: bool)
    ensures
        r == float_is_nan(b),
{
    (b / MANTISSA_SPAN) % 2048 == 2047 && b % MANTISSA_SPAN != 0
}

fn float_key_exec(b: u64) -> (r: i128)
    ensures
        r as int == float_key(b),
{
    let m = (b % SIGN_BIT) as i128;
    if b / SIGN_BIT == 0 {
        m
    } else {
        -m
    }
}

pub fn float_eq_exec(a: u64, b: u64) -> (r: bool)
    ensures
        r == float_eq(a, b),
{
    !float_is_nan_exec(a) && !float_is_nan_exec(b) && float_key_exec(a) == float_key_exec(b)
}

pub fn float_lt_exec(a: u64, b: u64) -> (r: bool)
    ensures
        r == float_lt(a, b),
{
    !float_is_nan_exec(a) && !float_is_nan_exec(b) && float_key_exec(a) < float_key_exec(b)
}

pub fn text_lt_exec(a: &String, b: &String) -> (r: bool)
    ensures
        r == text_lt(a@, b@),
{
    let sa = a.as_str();
    let sb = b.as_str();
    let la = sa.unicode_len();
    let lb = sb.unicode_len();
    let mut i: usize = 0;
    while i < la && i < lb && sa.get_char(i) == sb.get_char(i)
        invariant
            sa@ == a@,
            sb@ == b@,
            la == a@.len(),
            lb == b@.len(),
            i <= la,
            i <= lb,
            forall|j: int| 0 <= j < i ==> a@[j] == b@[j],
        decreases la - i,
    {
        i = i + 1;
    }
    let r = if i == la {
        i < lb
    } else if i == lb {
        false
    } else {
        let ca = sa.get_char(i);
        let cb = sb.get_char(i);
        assert(ca == a@[i as int] && cb == b@[i as int]);
        (ca as u32) < (cb as u32)
    };
    proof {
        if r {
            assert(text_lt(a@, b@)) by {
                let k = i as int;
                assert(forall|j: int| 0 <= j < k ==> a@[j] == b@[j]);
                assert(0 <= k <= a@.len() && k <= b@.len() && (forall|j: int| 0 <= j < k ==> a@[j]
                    == b@[j]) && ((k == a@.len() && k < b@.len()) || (k < a@.len() && k < b@.len()
                    && (a@[k] as u32) < (b@[k] as u32))));
            }
        } else {
            assert(!text_lt(a@, b@)) by {
                if text_lt(a@, b@) {
                    let k = choose|k: int|
                        0 <= k <= a@.len() && k <= b@.len() && (forall|j: int|
                            0 <= j < k ==> a@[j] == b@[j]) && ((k == a@.len() && k < b@.len()) || (
                        k < a@.len() && k < b@.len() && (a@[k] as u32) < (b@[k] as u32)));
                    if k > i {
                        assert(a@[i as int] == b@[i as int]);
                    }
                }
            }
        }
    }
    r
}

pub fn value_eq_exec(a: &Value, b: &Value) -> (r: bool)
    ensures
        r == value_eq(*a, *b),
{
    match (a, b) {
        (Value::Null, Value::Null) => true,
        (Value::Integer(x), Value::Integer(y)) => *x == *y,
        (Value::Float(x), Value::Float(y)) => float_eq_exec(*x, *y),
        (Value::Text(x), Value::Text(y)) => x.eq(y),
        (Value::Foreign(x), Value::Foreign(y)) => *x == *y,
        _ => false,
    }
}

pub fn value_lt_exec(a: &Value, b: &Value) -> (r: bool)
    ensures
        r == value_lt(*a, *b),
{
    match (a, b) {
        (Value::Integer(x), Value::Integer(y)) => *x < *y,
        (Value::Float(x), Value::Float(y)) => float_lt_exec(*x, *y),
        (Value::Text(x), Value::Text(y)) => text_lt_exec(x, y),
        _ => false,
    }
}

} // verus!
