//! Values of the language that hold no number: booleans, strings, bytes, and
//! the shared mutable cells that hold objects; and the bounds of slices.

use std::cell::RefCell;
use std::rc::Rc;
use vstd::prelude::*;
use crate::lexer::push_char;

verus! {

/// `std::cell::RefCell`, whose contents Verus does not see.
#[verifier::external_type_specification]
#[verifier::external_body]
#[verifier::reject_recursive_types(T)]
pub struct ExRefCell<T: ?Sized>(RefCell<T>);

/// `RefCell::new` of std: makes a cell holding `value`. Nothing is claimed of
/// the cell; its contents are read and written outside the verified code.
pub assume_specification<T>[ RefCell::<T>::new ](value: T) -> RefCell<T>;

/// A value shared by reference and mutable through it (lists, dictionaries,
/// objects, classes, functions).
#[derive(Debug, Clone)]
#[verifier::reject_recursive_types(T)]
pub struct MutValue<T>(pub Rc<RefCell<T>>);

impl<T> MutValue<T> {
    /// A new shared cell holding `obj`.
    pub fn new(obj: T) -> (r: Self) {
        MutValue::<T>(Rc::new(RefCell::new(obj)))
    }
}

#[derive(Debug, Clone)]
pub struct BoolValue {
    pub b: bool,
}

#[derive(Debug, Clone)]
pub struct StringValue {
    pub s: String,
}

#[derive(Debug, Clone)]
pub struct BytesValue {
    pub s: Vec<u8>,
}

/// The start, end and step of a slice `[first:second:third]`: an absent start
/// is 0, an absent end is the largest index, a step below 1 is 1. A slice
/// without a step (`None`) has no bounds.
pub fn slice_bounds(first: Option<usize>, second: Option<usize>, third: Option<usize>) -> (r: Option<(usize, usize, usize)>)
    ensures
        r is None <==> third is None,
        r matches Some(b) ==> {
            &&& b.0 == (match first {
                Some(f) => f,
                None => 0,
            })
            &&& b.1 == (match second {
                Some(s) => s,
                None => usize::MAX,
            })
            &&& b.2 == (if third->0 <= 1 { 1 } else { third->0 })
        },
{
    let step = match third {
        Some(t) => t,
        None => return None,
    };
    let start = match first {
        Some(f) => f,
        None => 0,
    };
    let end = match second {
        Some(s) => s,
        None => usize::MAX,
    };
    let step = if step <= 1 { 1 } else { step };
    Some((start, end, step))
}

/// The elements of `s` at positions `i`, `i + step`, `i + 2 * step`, ...
/// below both `end` and the length of `s`.
pub open spec fn stepped<T>(s: Seq<T>, i: int, end: int, step: int) -> Seq<T>
    decreases (if i < s.len() { s.len() - i } else { 0 }),
    when step >= 1
{
    if i < 0 || i >= end || i >= s.len() {
        Seq::empty()
    } else {
        seq![s[i]] + stepped(s, i + step, end, step)
    }
}

/// The elements of the slice `[start:end:step]` of `s`: none when the step
/// exceeds the length.
pub open spec fn spec_slice<T>(s: Seq<T>, start: int, end: int, step: int) -> Seq<T> {
    if step > s.len() {
        Seq::empty()
    } else {
        stepped(s, start, end, step)
    }
}

/// The positions read by the slice `[start:end:step]` of a sequence of `len` elements.
pub open spec fn slice_reads(len: int, start: int, end: int, step: int, i: int) -> bool {
    &&& step <= len
    &&& start <= i < end
    &&& i < len
    &&& (i - start) % step == 0
}

impl BytesValue {
    /// The byte at `i`, as a sequence of one byte.
    pub fn access_index(&self, i: usize) -> (r: BytesValue)
        requires
            i < self.s@.len(),
        ensures
            r.s@ == seq![self.s@[i as int]],
    {
        BytesValue { s: vec![self.s[i]] }
    }

    /// The bytes of the slice `[start:end:step]`, `step` at least 1.
    pub fn access_slice(&self, start: usize, end: usize, step: usize) -> (r: BytesValue)
        requires
            step >= 1,
        ensures
            r.s@ == spec_slice(self.s@, start as int, end as int, step as int),
    {
        let mut result: Vec<u8> = vec![];
        let len = self.s.len();
        if step > len {
            return BytesValue { s: result };
        }
        let ghost s = self.s@;
        let mut i: usize = start;
        assert(result@ + stepped(s, i as int, end as int, step as int) =~= stepped(s, start as int, end as int, step as int));
        loop
            invariant_except_break
                result@ + stepped(s, i as int, end as int, step as int) == stepped(s, start as int, end as int, step as int),
            invariant
                step >= 1,
                step <= len,
                len == s.len(),
                s == self.s@,
            ensures
                result@ == stepped(s, start as int, end as int, step as int),
            decreases (if i < len { len - i } else { 0 }),
        {
            if i >= end || i >= len {
                assert(stepped(s, i as int, end as int, step as int) =~= Seq::<u8>::empty());
                assert(result@ + Seq::<u8>::empty() =~= result@);
                break;
            }
            let ghost before = result@;
            result.push(self.s[i]);
            assert(stepped(s, i as int, end as int, step as int) == seq![s[i as int]] + stepped(s, i + step, end as int, step as int));
            assert(result@ + stepped(s, i + step, end as int, step as int) =~= before + stepped(s, i as int, end as int, step as int));
            match i.checked_add(step) {
                Some(n) => i = n,
                None => {
                    assert(stepped(s, i + step, end as int, step as int) =~= Seq::<u8>::empty());
                    assert(result@ =~= result@ + stepped(s, i + step, end as int, step as int));
                    break;
                },
            }
        }
        BytesValue { s: result }
    }
}

/// The character of an ASCII byte.
pub open spec fn ascii_char(b: u8) -> char {
    b as char
}

impl StringValue {
    /// The bytes of the text.
    pub open spec fn bytes(&self) -> Seq<u8> {
        vstd::utf8::encode_utf8(self.s@)
    }

    /// The character at byte `i`, which must be an ASCII character.
    pub fn access_index(&self, i: usize) -> (r: StringValue)
        requires
            i < self.bytes().len(),
            self.bytes()[i as int] < 128,
        ensures
            r.s@ == seq![ascii_char(self.bytes()[i as int])],
    {
        let bytes = self.s.as_str().as_bytes();
        let mut s = String::new();
        push_char(&mut s, bytes[i] as char);
        StringValue { s: s }
    }

    /// The characters of the slice `[start:end:step]` of the bytes, `step` at
    /// least 1; every byte read must be an ASCII character.
    pub fn access_slice(&self, start: usize, end: usize, step: usize) -> (r: StringValue)
        requires
            step >= 1,
            forall|i: int| slice_reads(self.bytes().len() as int, start as int, end as int, step as int, i) ==> self.bytes()[i]
                < 128,
        ensures
            r.s@ == spec_slice(self.bytes(), start as int, end as int, step as int).map_values(|b: u8| ascii_char(b)),
    {
        let bytes = self.s.as_str().as_bytes();
        let len = bytes.len();
        let mut result = String::new();
        if step > len {
            assert(result@ =~= Seq::<u8>::empty().map_values(|b: u8| ascii_char(b)));
            return StringValue { s: result };
        }
        let ghost s = bytes@;
        let ghost all = stepped(s, start as int, end as int, step as int).map_values(|b: u8| ascii_char(b));
        let mut i: usize = start;
        assert(result@ + stepped(s, i as int, end as int, step as int).map_values(|b: u8| ascii_char(b)) =~= all);
        loop
            invariant_except_break
                start <= i,
                (i - start) % (step as int) == 0,
                result@ + stepped(s, i as int, end as int, step as int).map_values(|b: u8| ascii_char(b)) == all,
            invariant
                step >= 1,
                step <= len,
                len == s.len(),
                s == bytes@,
                s == self.bytes(),
                all == stepped(s, start as int, end as int, step as int).map_values(|b: u8| ascii_char(b)),
                forall|j: int| slice_reads(len as int, start as int, end as int, step as int, j) ==> s[j] < 128,
            ensures
                result@ == all,
            decreases (if i < len { len - i } else { 0 }),
        {
            if i >= end || i >= len {
                assert(stepped(s, i as int, end as int, step as int) =~= Seq::<u8>::empty());
                assert(result@ =~= result@ + Seq::<u8>::empty().map_values(|b: u8| ascii_char(b)));
                break;
            }
            assert(slice_reads(len as int, start as int, end as int, step as int, i as int));
            let ghost before = result@;
            let b = bytes[i];
            push_char(&mut result, b as char);
            let ghost next = stepped(s, i + step, end as int, step as int);
            assert(stepped(s, i as int, end as int, step as int) == seq![b] + next);
            assert((seq![b] + next).map_values(|b: u8| ascii_char(b)) =~= seq![ascii_char(b)] + next.map_values(
                |b: u8| ascii_char(b),
            ));
            assert(result@ + next.map_values(|b: u8| ascii_char(b)) =~= before + (seq![b] + next).map_values(
                |b: u8| ascii_char(b),
            ));
            assert(((i + step) - start) % (step as int) == 0) by (nonlinear_arith)
                requires
                    (i - start) % (step as int) == 0,
                    step >= 1,
            ;
            match i.checked_add(step) {
                Some(n) => i = n,
                None => {
                    assert(next =~= Seq::<u8>::empty());
                    assert(result@ =~= result@ + next.map_values(|b: u8| ascii_char(b)));
                    break;
                },
            }
        }
        StringValue { s: result }
    }
}

} // verus!
