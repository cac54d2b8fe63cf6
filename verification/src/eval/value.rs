//! Runtime values.

use vstd::prelude::*;
use vstd::string::*;

use crate::eval::decimal::{decimal_text, Decimal};
use crate::eval::rational::{rational_text, Rational};
use crate::text::{i128_text, int_text};

verus! {

/// An array: values in row-major order, with its shape.
#[derive(Debug)]
pub struct Array {
    pub items: Vec<Value>,
    pub shape: Vec<usize>,
}

#[derive(Debug)]
pub enum Value {
    Int(i128),
    Deci(Decimal),
    Rat(Rational),
    Bool(bool),
    Str(String),
    Array(Array),
    /// The value of something that hands nothing back.
    Nothing,
}

/// A value as contracts speak of it: texts and arrays by what they hold.
#[verifier::ext_equal]
pub enum Val {
    Int(i128),
    Deci(Decimal),
    Rat(Rational),
    Bool(bool),
    Str(Seq<char>),
    Array { items: Seq<Val>, shape: Seq<usize> },
    Nothing,
}

pub open spec fn val_of(v: Value) -> Val
    decreases v,
{
    match v {
        Value::Int(n) => Val::Int(n),
        Value::Deci(d) => Val::Deci(d),
        Value::Rat(r) => Val::Rat(r),
        Value::Bool(b) => Val::Bool(b),
        Value::Str(s) => Val::Str(s@),
        Value::Array(a) => Val::Array {
            items: Seq::new(
                a.items@.len(),
                |i: int|
                    if 0 <= i < a.items@.len() {
                        val_of(a.items@[i])
                    } else {
                        Val::Nothing
                    },
            ),
            shape: a.shape@,
        },
        Value::Nothing => Val::Nothing,
    }
}

/// The values in a list.
pub open spec fn vals_of(items: Seq<Value>) -> Seq<Val> {
    Seq::new(items.len(), |i: int| val_of(items[i]))
}

impl View for Value {
    type V = Val;

    open spec fn view(&self) -> Val {
        val_of(*self)
    }
}

/// An array holds what its items hold.
pub broadcast proof fn lemma_array_view(a: Array)
    ensures
        #[trigger] val_of(Value::Array(a)) == (Val::Array { items: vals_of(a.items@), shape: a.shape@ }),
{
    assert(val_of(Value::Array(a))->Array_items =~= vals_of(a.items@));
}

/// A list with one more value in it.
pub broadcast proof fn lemma_vals_push(items: Seq<Value>, v: Value)
    ensures
        #[trigger] vals_of(items.push(v)) == vals_of(items).push(val_of(v)),
{
    assert(vals_of(items.push(v)) =~= vals_of(items).push(val_of(v)));
}

pub open spec fn kind_text(v: Val) -> Seq<char> {
    match v {
        Val::Int(_) => "int"@,
        Val::Deci(_) => "deci"@,
        Val::Rat(_) => "rat"@,
        Val::Bool(_) => "bool"@,
        Val::Str(_) => "str"@,
        Val::Array { .. } => "array"@,
        Val::Nothing => "none"@,
    }
}

/// Texts with a comma between each two.
pub open spec fn comma_separated(parts: Seq<Seq<char>>) -> Seq<char>
    decreases parts.len(),
{
    if parts.len() == 0 {
        Seq::empty()
    } else if parts.len() == 1 {
        parts[0]
    } else {
        comma_separated(parts.drop_last()) + ", "@ + parts.last()
    }
}

/// A value as it is printed.
pub open spec fn val_text(v: Val) -> Seq<char>
    decreases v,
{
    match v {
        Val::Int(n) => int_text(n as int),
        Val::Deci(d) => decimal_text(d),
        Val::Rat(r) => rational_text(r),
        Val::Bool(b) => if b {
            "true"@
        } else {
            "false"@
        },
        Val::Str(s) => s,
        Val::Nothing => Seq::empty(),
        Val::Array { items, .. } => "{"@ + comma_separated(item_texts(items)) + "}"@,
    }
}

/// Each of the values as it is printed.
pub open spec fn item_texts(items: Seq<Val>) -> Seq<Seq<char>>
    decreases items,
{
    Seq::new(
        items.len(),
        |i: int|
            if 0 <= i < items.len() {
                val_text(items[i])
            } else {
                Seq::empty()
            },
    )
}

impl Array {
    pub fn vector(items: Vec<Value>) -> (r: Array)
        ensures
            r.items@ == items@,
            r.shape@ == seq![items@.len() as usize],
    {
        let n: usize = items.len();
        let mut shape: Vec<usize> = Vec::new();
        shape.push(n);
        assert(shape@ =~= seq![n]);
        Array { items, shape }
    }

    /// Another array that holds the same.
    pub fn copied(&self) -> (r: Array)
        ensures
            vals_of(r.items@) == vals_of(self.items@),
            r.shape@ == self.shape@,
            val_of(Value::Array(r)) == val_of(Value::Array(*self)),
        decreases self,
    {
        let mut items: Vec<Value> = Vec::new();
        let mut i: usize = 0;
        while i < self.items.len()
            invariant
                i <= self.items.len(),
                items@.len() == i,
                forall|j: int| 0 <= j < i ==> val_of(#[trigger] items@[j]) == val_of(self.items@[j]),
            decreases self.items.len() - i,
        {
            items.push(self.items[i].copied());
            i = i + 1;
        }
        let r: Array = Array { items, shape: self.shape.clone() };
        proof {
            assert(vals_of(r.items@) =~= vals_of(self.items@));
            assert(r.shape@ =~= self.shape@);
            lemma_array_view(r);
            lemma_array_view(*self);
        }
        r
    }

    /// The array as it is printed.
    fn text(&self) -> (r: String)
        ensures
            r@ == "{"@ + comma_separated(item_texts(vals_of(self.items@))) + "}"@,
        decreases self,
    {
        let mut out: String = "{".to_owned();
        let mut i: usize = 0;
        let ghost texts = item_texts(vals_of(self.items@));
        assert(texts.take(0) =~= Seq::empty());
        assert("{"@ + Seq::<char>::empty() =~= "{"@);
        while i < self.items.len()
            invariant
                i <= self.items.len(),
                texts == item_texts(vals_of(self.items@)),
                out@ =~= "{"@ + comma_separated(texts.take(i as int)),
            decreases self.items.len() - i,
        {
            if i > 0 {
                out.append(", ");
            }
            let t: String = self.items[i].text();
            out.append(t.as_str());
            proof {
                let next = texts.take(i as int + 1);
                assert(next.drop_last() =~= texts.take(i as int));
                assert(next.last() == t@);
            }
            i = i + 1;
        }
        out.append("}");
        assert(texts.take(texts.len() as int) =~= texts);
        out
    }
}

impl Value {
    /// Another value that is the same.
    pub fn copied(&self) -> (r: Value)
        ensures
            r@ == self@,
        decreases self,
    {
        match self {
            Value::Int(n) => Value::Int(*n),
            Value::Deci(d) => Value::Deci(*d),
            Value::Rat(q) => Value::Rat(*q),
            Value::Bool(b) => Value::Bool(*b),
            Value::Str(s) => Value::Str(s.clone()),
            Value::Array(a) => Value::Array(a.copied()),
            Value::Nothing => Value::Nothing,
        }
    }

    pub fn kind_name(&self) -> (r: &'static str)
        ensures
            r@ == kind_text(self@),
    {
        match self {
            Value::Int(_) => "int",
            Value::Deci(_) => "deci",
            Value::Rat(_) => "rat",
            Value::Bool(_) => "bool",
            Value::Str(_) => "str",
            Value::Array(_) => "array",
            Value::Nothing => "none",
        }
    }

    pub fn is_numeric(&self) -> (r: bool)
        ensures
            r == (self@ is Int || self@ is Deci || self@ is Rat),
    {
        match self {
            Value::Int(_) => true,
            Value::Deci(_) => true,
            Value::Rat(_) => true,
            _ => false,
        }
    }

    /// The value as it is printed.
    pub fn text(&self) -> (r: String)
        ensures
            r@ == val_text(self@),
        decreases self,
    {
        match self {
            Value::Int(n) => i128_text(*n),
            Value::Deci(d) => d.text(),
            Value::Rat(q) => q.text(),
            Value::Bool(b) => if *b {
                "true".to_owned()
            } else {
                "false".to_owned()
            },
            Value::Str(s) => s.clone(),
            Value::Nothing => String::new(),
            Value::Array(a) => {
                let out: String = a.text();
                proof {
                    lemma_array_view(*a);
                }
                out
            },
        }
    }
}

} // verus!
