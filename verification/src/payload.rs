//! A list of bytes that lives in a type.

use core::marker::PhantomData;
use vstd::prelude::*;

verus! {

/// A list that starts with the byte `N` and goes on with `NEXT`.
pub struct B<const N: usize, NEXT>(PhantomData<NEXT>);

/// The empty list.
pub struct Z;

/// A type that is a list of bytes.
pub trait Walker {
    /// The bytes of the list.
    spec fn bytes() -> Seq<u8>;

    /// Appends the bytes of the list to `v`.
    fn f(v: &mut Vec<u8>)
        ensures
            final(v)@ == old(v)@ + Self::bytes(),
    ;
}

impl Walker for Z {
    open spec fn bytes() -> Seq<u8> {
        Seq::empty()
    }

    fn f(v: &mut Vec<u8>) {
        assert(old(v)@ + Self::bytes() =~= old(v)@);
    }
}

impl<const N: usize, NEXT: Walker> Walker for B<N, NEXT> {
    open spec fn bytes() -> Seq<u8> {
        seq![(N % 256) as u8] + NEXT::bytes()
    }

    fn f(v: &mut Vec<u8>) {
        let n: usize = N;
        assert(n as u8 == n % 256) by (bit_vector);
        v.push(n as u8);
        NEXT::f(v);
        assert(v@ =~= old(v)@ + Self::bytes());
    }
}

/// Walks a list and collects its bytes.
pub fn decode_payload<L: Walker>() -> (v: Vec<u8>)
    ensures
        v@ == L::bytes(),
{
    let mut v: Vec<u8> = Vec::new();
    L::f(&mut v);
    assert(v@ =~= L::bytes());
    v
}

/// A list that starts with a byte's value decodes to that byte and then to what
/// the rest of the list decodes to.
pub proof fn law_list_starts_with_its_byte<const N: usize, NEXT: Walker>()
    requires
        N < 256,
    ensures
        <B<N, NEXT> as Walker>::bytes().len() == NEXT::bytes().len() + 1,
        <B<N, NEXT> as Walker>::bytes()[0] == N,
        <B<N, NEXT> as Walker>::bytes().skip(1) == NEXT::bytes(),
{
    assert(<B<N, NEXT> as Walker>::bytes().skip(1) =~= NEXT::bytes());
}

/// Of a larger number a list holds the low byte.
pub proof fn law_list_starts_with_low_byte<const N: usize, NEXT: Walker>()
    ensures
        <B<N, NEXT> as Walker>::bytes().len() == NEXT::bytes().len() + 1,
        (N - <B<N, NEXT> as Walker>::bytes()[0]) % 256 == 0,
        <B<N, NEXT> as Walker>::bytes().skip(1) == NEXT::bytes(),
{
    assert(<B<N, NEXT> as Walker>::bytes().skip(1) =~= NEXT::bytes());
}

/// Lists of byte values decode to the same bytes only if they start with the same
/// value and go on the same.
pub proof fn law_lists_tell_bytes_apart<
    const N: usize,
    const M: usize,
    NEXT: Walker,
    LAST: Walker,
>()
    requires
        N < 256,
        M < 256,
        <B<N, NEXT> as Walker>::bytes() == <B<M, LAST> as Walker>::bytes(),
    ensures
        N == M,
        NEXT::bytes() == LAST::bytes(),
{
    law_list_starts_with_its_byte::<N, NEXT>();
    law_list_starts_with_its_byte::<M, LAST>();
}

/// The empty list decodes to no bytes.
pub proof fn law_empty_list_has_no_bytes()
    ensures
        <Z as Walker>::bytes().len() == 0,
{
}

/// The source text that the machine starts on.
pub type P = B<
    0b01100001,
    B<
        0b01110010,
        B<
            0b01110011,
            B<
                0b01110100,
                B<
                    0b00100000,
                    B<
                        0b01101001,
                        B<
                            0b01110011,
                            B<
                                0b00100000,
                                B<0b01100101, B<0b01110110, B<0b01101001, B<0b01101100, Z>>>>,
                            >,
                        >,
                    >,
                >,
            >,
        >,
    >,
>;

} // verus!
