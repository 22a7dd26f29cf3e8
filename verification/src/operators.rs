//! What the virtual machine does with values, decided by their kinds: the
//! name the `type` function gives a value, and what `+` does with two operands.

use vstd::prelude::*;
use vstd::string::StringExecFns;
use vstd::utf8::encode_utf8;

verus! {

/// The kinds of the language's values.
#[derive(Debug, Clone, Copy, PartialEq, Eq, Structural)]
pub enum ValueKind {
    Class,
    Object,
    Dict,
    List,
    Fn,
    Native,
    Number,
    String,
    Bytes,
    Bool,
    Slice,
    Nil,
}

/// The name the `type` function gives a value of kind `k`.
pub open spec fn spec_kind_name(k: ValueKind) -> Seq<char> {
    match k {
        ValueKind::Class => "class"@,
        ValueKind::Object => "object"@,
        ValueKind::Dict => "dict"@,
        ValueKind::List => "list"@,
        ValueKind::Fn => "function"@,
        ValueKind::Native => "native"@,
        ValueKind::Number => "number"@,
        ValueKind::String => "string"@,
        ValueKind::Bytes => "bytes"@,
        ValueKind::Bool => "bool"@,
        ValueKind::Slice => "slice"@,
        ValueKind::Nil => "nil"@,
    }
}

/// The name the `type` function gives a value of kind `k`.
pub fn kind_name(k: ValueKind) -> (r: String)
    ensures
        r@ == spec_kind_name(k),
{
    match k {
        ValueKind::Class => String::from_str("class"),
        ValueKind::Object => String::from_str("object"),
        ValueKind::Dict => String::from_str("dict"),
        ValueKind::List => String::from_str("list"),
        ValueKind::Fn => String::from_str("function"),
        ValueKind::Native => String::from_str("native"),
        ValueKind::Number => String::from_str("number"),
        ValueKind::String => String::from_str("string"),
        ValueKind::Bytes => String::from_str("bytes"),
        ValueKind::Bool => String::from_str("bool"),
        ValueKind::Slice => String::from_str("slice"),
        ValueKind::Nil => String::from_str("nil"),
    }
}

/// Why `+` is refused.
#[derive(Debug, Clone, Copy, PartialEq, Eq, Structural)]
pub enum AddError {
    /// A number was added something else than a number.
    ExpectedNumber,
    /// A text or bytes were added something else than a text or bytes.
    ExpectedString,
    /// A list was added something else than a list.
    ExpectedList,
    /// A dictionary was added something else than a dictionary.
    ExpectedDict,
    /// The left operand has no `+`.
    UndefinedOp,
}

/// What `+` does with its operands.
#[derive(Debug, Clone, Copy, PartialEq, Eq, Structural)]
pub enum AddAction {
    /// The sum of two numbers.
    AddNumbers,
    /// The text of the left operand followed by that of the right one.
    ConcatStrings,
    /// Bytes: the UTF-8 encoding of the left text, then the right bytes.
    ConcatStringBytes,
    /// Bytes: the left bytes, then the UTF-8 encoding of the right text.
    ConcatBytesString,
    /// The left bytes, then the right ones.
    ConcatBytes,
    /// A new list: the left elements, then the right ones.
    ConcatLists,
    /// A new dictionary: the left entries, then the right ones over them.
    MergeDicts,
    /// The left object's `add` method is called with the right operand; an
    /// object without one refuses the operator.
    ObjectMethod,
    /// The operation is refused.
    Refuse(AddError),
}

/// What `+` does with operands of the kinds `l` and `r`.
pub open spec fn spec_add_action(l: ValueKind, r: ValueKind) -> AddAction {
    match l {
        ValueKind::Number => if r == ValueKind::Number {
            AddAction::AddNumbers
        } else {
            AddAction::Refuse(AddError::ExpectedNumber)
        },
        ValueKind::String => match r {
            ValueKind::String => AddAction::ConcatStrings,
            ValueKind::Bytes => AddAction::ConcatStringBytes,
            _ => AddAction::Refuse(AddError::ExpectedString),
        },
        ValueKind::Bytes => match r {
            ValueKind::String => AddAction::ConcatBytesString,
            ValueKind::Bytes => AddAction::ConcatBytes,
            _ => AddAction::Refuse(AddError::ExpectedString),
        },
        ValueKind::List => match r {
            ValueKind::List => AddAction::ConcatLists,
            ValueKind::Nil => AddAction::Refuse(AddError::UndefinedOp),
            _ => AddAction::Refuse(AddError::ExpectedList),
        },
        ValueKind::Dict => if r == ValueKind::Dict {
            AddAction::MergeDicts
        } else {
            AddAction::Refuse(AddError::ExpectedDict)
        },
        ValueKind::Object => AddAction::ObjectMethod,
        _ => AddAction::Refuse(AddError::UndefinedOp),
    }
}

/// What `+` does with operands of the kinds `l` and `r`.
pub fn add_action(l: ValueKind, r: ValueKind) -> (a: AddAction)
    ensures
        a == spec_add_action(l, r),
{
    match l {
        ValueKind::Number => match r {
            ValueKind::Number => AddAction::AddNumbers,
            _ => AddAction::Refuse(AddError::ExpectedNumber),
        },
        ValueKind::String => match r {
            ValueKind::String => AddAction::ConcatStrings,
            ValueKind::Bytes => AddAction::ConcatStringBytes,
            _ => AddAction::Refuse(AddError::ExpectedString),
        },
        ValueKind::Bytes => match r {
            ValueKind::String => AddAction::ConcatBytesString,
            ValueKind::Bytes => AddAction::ConcatBytes,
            _ => AddAction::Refuse(AddError::ExpectedString),
        },
        ValueKind::List => match r {
            ValueKind::List => AddAction::ConcatLists,
            ValueKind::Nil => AddAction::Refuse(AddError::UndefinedOp),
            _ => AddAction::Refuse(AddError::ExpectedList),
        },
        ValueKind::Dict => match r {
            ValueKind::Dict => AddAction::MergeDicts,
            _ => AddAction::Refuse(AddError::ExpectedDict),
        },
        ValueKind::Object => AddAction::ObjectMethod,
        _ => AddAction::Refuse(AddError::UndefinedOp),
    }
}

/// The text `a` followed by the text `b`.
pub fn concat_strings(a: &String, b: &String) -> (r: String)
    ensures
        r@ == a@ + b@,
{
    a.clone().concat(b.as_str())
}

/// The bytes `a` followed by the bytes `b`.
pub fn concat_bytes(a: &[u8], b: &[u8]) -> (r: Vec<u8>)
    ensures
        r@ == a@ + b@,
{
    let mut r: Vec<u8> = Vec::new();
    let mut i: usize = 0;
    while i < a.len()
        invariant
            i <= a@.len(),
            r@ == a@.subrange(0, i as int),
        decreases a@.len() - i,
    {
        r.push(a[i]);
        assert(a@.subrange(0, i + 1) =~= a@.subrange(0, i as int).push(a@[i as int]));
        i = i + 1;
    }
    let mut j: usize = 0;
    while j < b.len()
        invariant
            j <= b@.len(),
            r@ == a@ + b@.subrange(0, j as int),
        decreases b@.len() - j,
    {
        r.push(b[j]);
        assert(a@ + b@.subrange(0, j + 1) =~= (a@ + b@.subrange(0, j as int)).push(b@[j as int]));
        j = j + 1;
    }
    assert(a@.subrange(0, a@.len() as int) =~= a@);
    assert(b@.subrange(0, b@.len() as int) =~= b@);
    r
}

/// The UTF-8 encoding of the text `s` followed by the bytes `b`.
pub fn concat_string_bytes(s: &String, b: &[u8]) -> (r: Vec<u8>)
    ensures
        r@ == encode_utf8(s@) + b@,
{
    concat_bytes(s.as_str().as_bytes(), b)
}

/// The bytes `b` followed by the UTF-8 encoding of the text `s`.
pub fn concat_bytes_string(b: &[u8], s: &String) -> (r: Vec<u8>)
    ensures
        r@ == b@ + encode_utf8(s@),
{
    concat_bytes(b, s.as_str().as_bytes())
}

/// How `==` compares two operands; `!=` gives the opposite answer.
#[derive(Debug, Clone, Copy, PartialEq, Eq, Structural)]
pub enum EqualityTest {
    /// Two numbers are compared.
    Numbers,
    /// Two texts are compared.
    Texts,
    /// Two booleans are compared.
    Bools,
    /// Two lists are compared by where their elements are stored.
    SameList,
    /// The answer does not depend on the operands' contents.
    Always(bool),
}

/// How `==` compares operands of the kinds `l` and `r`. Two dictionaries
/// are never equal: each is compared by the address of a reference made for
/// the comparison.
pub open spec fn spec_equality_test(l: ValueKind, r: ValueKind) -> EqualityTest {
    if l == ValueKind::Number && r == ValueKind::Number {
        EqualityTest::Numbers
    } else if l == ValueKind::String && r == ValueKind::String {
        EqualityTest::Texts
    } else if l == ValueKind::Bool && r == ValueKind::Bool {
        EqualityTest::Bools
    } else if l == ValueKind::List && r == ValueKind::List {
        EqualityTest::SameList
    } else {
        EqualityTest::Always(l == ValueKind::Nil && r == ValueKind::Nil)
    }
}

/// How `==` compares operands of the kinds `l` and `r`.
pub fn equality_test(l: ValueKind, r: ValueKind) -> (t: EqualityTest)
    ensures
        t == spec_equality_test(l, r),
        l != r ==> t == EqualityTest::Always(false),
        t == EqualityTest::Always(true) <==> (l == ValueKind::Nil && r == ValueKind::Nil),
        l == r && l != ValueKind::Number && l != ValueKind::String && l != ValueKind::Bool
            && l != ValueKind::List && l != ValueKind::Nil ==> t == EqualityTest::Always(false),
{
    match (l, r) {
        (ValueKind::Number, ValueKind::Number) => EqualityTest::Numbers,
        (ValueKind::String, ValueKind::String) => EqualityTest::Texts,
        (ValueKind::Bool, ValueKind::Bool) => EqualityTest::Bools,
        (ValueKind::List, ValueKind::List) => EqualityTest::SameList,
        (ValueKind::Nil, ValueKind::Nil) => EqualityTest::Always(true),
        _ => EqualityTest::Always(false),
    }
}

/// `==` on two values: only two nils are always equal; numbers, texts and booleans
/// are compared by content and lists by where their elements are stored; every
/// other pair of kinds, including two bytes, dicts, functions, classes, objects,
/// natives or slices, is never equal.
pub proof fn lemma_equality_by_kind(l: ValueKind, r: ValueKind)
    ensures
        spec_equality_test(l, r) == EqualityTest::Always(true) <==> (l == ValueKind::Nil && r
            == ValueKind::Nil),
        l == ValueKind::Number && r == ValueKind::Number ==> spec_equality_test(l, r)
            == EqualityTest::Numbers,
        l == ValueKind::String && r == ValueKind::String ==> spec_equality_test(l, r)
            == EqualityTest::Texts,
        l == ValueKind::Bool && r == ValueKind::Bool ==> spec_equality_test(l, r)
            == EqualityTest::Bools,
        l == ValueKind::List && r == ValueKind::List ==> spec_equality_test(l, r)
            == EqualityTest::SameList,
        l != r ==> spec_equality_test(l, r) == EqualityTest::Always(false),
        l == ValueKind::Bytes && r == ValueKind::Bytes ==> spec_equality_test(l, r)
            == EqualityTest::Always(false),
        l == ValueKind::Dict && r == ValueKind::Dict ==> spec_equality_test(l, r)
            == EqualityTest::Always(false),
        l == r && l != ValueKind::Number && l != ValueKind::String && l != ValueKind::Bool
            && l != ValueKind::List && l != ValueKind::Nil ==> spec_equality_test(l, r)
            == EqualityTest::Always(false),
{
}

} // verus!
