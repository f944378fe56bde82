use vstd::prelude::*;

verus! {

/// A number that did not fit the integer type it was converted to.
#[derive(Debug, Clone, Copy, PartialEq, Eq, Structural)]
pub struct TryFromIntError;

/// `None` for an empty vector, the vector itself otherwise.
pub fn none_if_empty<T>(value: Vec<T>) -> (r: Option<Vec<T>>)
    ensures
        value@.len() == 0 ==> r is None,
        value@.len() > 0 ==> r == Some(value),
{
    if value.len() == 0 {
        None
    } else {
        Some(value)
    }
}

/// The vector held, or an empty one.
pub fn empty_if_none<T>(value: Option<Vec<T>>) -> (r: Vec<T>)
    ensures
        value is Some ==> r == value->Some_0,
        value is None ==> r@.len() == 0,
{
    match value {
        Some(v) => v,
        None => Vec::new(),
    }
}

/// Bytes to add after `number` bytes to reach a multiple of `alignment`.
pub open spec fn padding_for(number: nat, alignment: nat) -> nat
    recommends
        alignment > 0,
{
    ((alignment as int - (number as int) % (alignment as int)) % (alignment as int)) as nat
}

/// Padding brings `number` to a multiple of `alignment`, and is less than it.
pub proof fn lemma_padding_for(number: nat, alignment: nat)
    requires
        alignment > 0,
    ensures
        (number as int + padding_for(number, alignment) as int) % (alignment as int) == 0,
        padding_for(number, alignment) < alignment,
{
    let n = number as int;
    let a = alignment as int;
    let r = padding_for(number, alignment) as int;
    assert((n + r) % a == 0 && r < a) by (nonlinear_arith)
        requires
            a > 0,
            n >= 0,
            r == (a - n % a) % a,
    {
        vstd::arithmetic::div_mod::lemma_fundamental_div_mod(n, a);
        vstd::arithmetic::div_mod::lemma_mod_add_multiples_vanish(a - n % a, a);
    }
}

pub fn necessary_padding_for(number: usize, alignment: usize) -> (r: usize)
    requires
        alignment > 0,
    ensures
        r == padding_for(number as nat, alignment as nat),
        r < alignment,
        (number + r) % (alignment as int) == 0,
{
    let r = (alignment - number % alignment) % alignment;
    assert((number + r) % (alignment as int) == 0) by (nonlinear_arith)
        requires
            alignment > 0,
            r == (alignment - number % alignment) % (alignment as int),
    {
        vstd::arithmetic::div_mod::lemma_fundamental_div_mod(number as int, alignment as int);
        vstd::arithmetic::div_mod::lemma_mod_add_multiples_vanish(
            (alignment - number % alignment) as int,
            alignment as int,
        );
    }
    r
}

/// Growing a sequence with default elements up to a multiple of a length.
pub trait AlignToElements: Sized {
    /// `after` is `before` grown with zero elements to a multiple of
    /// `alignment`.
    spec fn aligned_from(before: Self, after: Self, alignment: usize) -> bool;

    fn align_to_elements(&mut self, alignment: usize)
        requires
            alignment > 0,
        ensures
            Self::aligned_from(*old(self), *final(self), alignment),
    ;
}

impl AlignToElements for Vec<u8> {
    open spec fn aligned_from(before: Self, after: Self, alignment: usize) -> bool {
        after@ == before@ + Seq::new(
            padding_for(before@.len(), alignment as nat),
            |i: int| 0u8,
        )
    }

    fn align_to_elements(&mut self, alignment: usize) {
        let pad = necessary_padding_for(self.len(), alignment);
        let ghost before = self@;
        let mut k: usize = 0;
        while k < pad
            invariant
                k <= pad,
                self@ == before + Seq::new(k as nat, |i: int| 0u8),
            decreases pad - k,
        {
            self.push(0u8);
            k = k + 1;
            assert(self@ =~= before + Seq::new(k as nat, |i: int| 0u8));
        }
    }
}

/// `None` for `u32::MAX`, which stands for no value.
pub fn u32_or_max_to_option(value: u32) -> (r: Option<u32>)
    ensures
        value == u32::MAX ==> r is None,
        value != u32::MAX ==> r == Some(value),
{
    if value == u32::MAX {
        None
    } else {
        Some(value)
    }
}

/// As `u32_or_max_to_option`, widened to an index.
pub fn u32_or_max_to_option_try_into(value: u32) -> (r: Result<Option<usize>, TryFromIntError>)
    ensures
        value == u32::MAX ==> r == Ok::<Option<usize>, TryFromIntError>(None),
        value != u32::MAX ==> r == Ok::<Option<usize>, TryFromIntError>(Some(value as usize)),
{
    match u32_or_max_to_option(value) {
        Some(x) => Ok(Some(x as usize)),
        None => Ok(None),
    }
}

/// `u32::MAX` for no value.
pub fn option_to_u32_or_max(value: Option<u32>) -> (r: u32)
    ensures
        value is None ==> r == u32::MAX,
        value is Some ==> r == value->Some_0,
{
    match value {
        Some(x) => x,
        None => u32::MAX,
    }
}

/// As `option_to_u32_or_max`, from an index, which must fit in `u32`.
pub fn option_to_u32_or_max_try_into(value: Option<usize>) -> (r: Result<u32, TryFromIntError>)
    ensures
        value is None ==> r == Ok::<u32, TryFromIntError>(u32::MAX),
        value is Some && value->Some_0 <= u32::MAX ==> r == Ok::<u32, TryFromIntError>(
            value->Some_0 as u32,
        ),
        value is Some && value->Some_0 > u32::MAX ==> r == Err::<u32, TryFromIntError>(
            TryFromIntError,
        ),
{
    let converted = match value {
        Some(x) => {
            if x > u32::MAX as usize {
                return Err(TryFromIntError);
            }
            Some(x as u32)
        },
        None => None,
    };
    Ok(option_to_u32_or_max(converted))
}

} // verus!
