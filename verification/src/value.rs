//! The values that a formula's constants hold.

use vstd::prelude::*;

verus! {

/// A literal of either algebra: a truth value or a set of integers.
#[derive(Debug, Clone)]
pub enum ValueType {
    Bool(bool),
    IntSet(Vec<i32>),
}

/// A literal on its way into a formula over some type of values.
#[derive(Debug, Clone)]
pub struct LogicValue {
    pub value: ValueType,
}

impl LogicValue {
    /// The truth value inside, where the literal is one.
    pub fn into_bool(self) -> (r: Option<bool>)
        ensures
            r == (match self.value {
                ValueType::Bool(b) => Some(b),
                ValueType::IntSet(_) => None,
            }),
    {
        match self.value {
            ValueType::Bool(b) => Some(b),
            ValueType::IntSet(_) => None,
        }
    }

    /// The set inside, where the literal is one.
    pub fn into_set(self) -> (r: Option<Vec<i32>>)
        ensures
            r == (match self.value {
                ValueType::Bool(_) => None::<Vec<i32>>,
                ValueType::IntSet(s) => Some(s),
            }),
    {
        match self.value {
            ValueType::Bool(_) => None,
            ValueType::IntSet(s) => Some(s),
        }
    }
}

/// The text of the digit that stands for a truth value.
pub open spec fn digit_of(bit: bool) -> char {
    if bit {
        '1'
    } else {
        '0'
    }
}

/// A truth value written out: `true` or `false`.
pub open spec fn word_of(bit: bool) -> Seq<char> {
    if bit {
        seq!['t', 'r', 'u', 'e']
    } else {
        seq!['f', 'a', 'l', 's', 'e']
    }
}

/// A type of values that formulas can be built over.
///
/// It says how a literal becomes a value, how a value is copied and
/// compared, and how a value is written: as a token of postfix text, and
/// written out. The form written out is what tells two constants apart in
/// a signature, so no such form may begin another one.
pub trait Operand: View + Sized {
    /// The value that a literal stands for; `None` where the type has no
    /// such literal.
    spec fn from_logic_spec(literal: LogicValue) -> Option<Self::V>;

    /// A value as a token of postfix text.
    spec fn render_spec(value: Self::V) -> Seq<char>;

    /// A value written out.
    spec fn written_spec(value: Self::V) -> Seq<char>;

    fn from_logic(literal: LogicValue) -> (r: Option<Self>)
        ensures
            match r {
                Some(v) => Self::from_logic_spec(literal) == Some(v@),
                None => Self::from_logic_spec(literal) is None,
            },
    ;

    fn duplicate(&self) -> (r: Self)
        ensures
            r@ == self@,
    ;

    /// Whether two values are the same.
    fn same(&self, other: &Self) -> (r: bool)
        ensures
            r == (self@ == other@),
    ;

    fn render(&self) -> (text: Vec<char>)
        ensures
            text@ == Self::render_spec(self@),
    ;

    fn written(&self) -> (text: Vec<char>)
        ensures
            text@ == Self::written_spec(self@),
    ;

    /// A value written out is not empty and begins with neither `!` nor
    /// `(`.
    proof fn lemma_written_head(value: Self::V)
        ensures
            Self::written_spec(value).len() > 0,
            Self::written_spec(value)[0] != '!',
            Self::written_spec(value)[0] != '(',
    ;

    /// Two values written out, of which one text begins the other whatever
    /// follows, are one value.
    proof fn lemma_written_prefix_free(a: Self::V, b: Self::V, rest_a: Seq<char>, rest_b: Seq<char>)
        requires
            Self::written_spec(a) + rest_a == Self::written_spec(b) + rest_b,
        ensures
            a == b,
    ;

    /// A truth value that the type can hold is written as its digit.
    proof fn lemma_render_literal(bit: bool)
        ensures
            Self::from_logic_spec(LogicValue { value: ValueType::Bool(bit) }) matches Some(v)
                ==> Self::render_spec(v) == seq![digit_of(bit)],
    ;
}

impl Operand for bool {
    open spec fn from_logic_spec(literal: LogicValue) -> Option<bool> {
        match literal.value {
            ValueType::Bool(b) => Some(b),
            ValueType::IntSet(_) => None,
        }
    }

    open spec fn render_spec(value: bool) -> Seq<char> {
        seq![digit_of(value)]
    }

    open spec fn written_spec(value: bool) -> Seq<char> {
        word_of(value)
    }

    fn from_logic(literal: LogicValue) -> (r: Option<bool>) {
        literal.into_bool()
    }

    fn duplicate(&self) -> (r: bool) {
        *self
    }

    fn same(&self, other: &bool) -> (r: bool) {
        *self == *other
    }

    fn render(&self) -> (text: Vec<char>) {
        let mut text: Vec<char> = Vec::new();
        text.push(if *self { '1' } else { '0' });
        assert(text@ == seq![digit_of(*self)]);
        text
    }

    fn written(&self) -> (text: Vec<char>) {
        let mut text: Vec<char> = Vec::new();
        if *self {
            text.push('t');
            text.push('r');
            text.push('u');
            text.push('e');
        } else {
            text.push('f');
            text.push('a');
            text.push('l');
            text.push('s');
            text.push('e');
        }
        assert(text@ == word_of(*self));
        text
    }

    proof fn lemma_written_head(value: bool) {
    }

    proof fn lemma_written_prefix_free(a: bool, b: bool, rest_a: Seq<char>, rest_b: Seq<char>) {
        assert((Self::written_spec(a) + rest_a)[0] == word_of(a)[0]);
        assert((Self::written_spec(b) + rest_b)[0] == word_of(b)[0]);
    }

    proof fn lemma_render_literal(bit: bool) {
    }
}

} // verus!
