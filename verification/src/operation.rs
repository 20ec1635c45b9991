use vstd::prelude::*;
use vstd::std_specs::ops::AddSpec;
use vstd::std_specs::ops::BitAndSpec;
use vstd::std_specs::ops::BitOrSpec;
use vstd::std_specs::ops::BitXorSpec;
use vstd::std_specs::ops::MulSpec;

verus! {

/// Whether every clone of a `V` equals the value it was made from.
pub open spec fn clone_is_exact<V: Clone>() -> bool {
    forall|a: V, b: V| #[trigger] cloned::<V>(a, b) ==> a == b
}

/// A trait for types that have a default associative operation.
pub trait WithDefaultOperation: Sized {
    /// The type returned in the event of an association error.
    type Error;

    /// The pairs on which `default_associate` may be called: all of them, unless an
    /// implementation says otherwise.
    open spec fn default_associate_req(&self, rhs: &Self) -> bool {
        true
    }

    /// What `default_associate` returns. An implementation that is verified defines it.
    open spec fn default_associate_spec(&self, rhs: &Self) -> Result<Self, Self::Error> {
        arbitrary()
    }

    /// Computes the association of `self`, on the left, with `rhs`, on the right.
    ///
    /// Returns `Err` if the operation fails.
    fn default_associate(&self, rhs: &Self) -> (r: Result<Self, Self::Error>)
        requires
            self.default_associate_req(rhs),
        ensures
            r == self.default_associate_spec(rhs),
    ;
}

/// A fallible associative operation.
///
/// The operation is a function of its two operands: `associate_spec` names its result, and
/// `associate_req` says on which pairs it may be applied. Operands are never swapped; the
/// operation need not commute.
pub trait AssociativeOperation<V> {
    /// The type returned in the event of an association error.
    type Error;

    /// The pairs on which `associate` may be called: all of them, unless an implementation
    /// says otherwise.
    open spec fn associate_req(lhs: V, rhs: V) -> bool {
        true
    }

    /// What `associate` returns. An implementation that is verified defines it.
    open spec fn associate_spec(lhs: V, rhs: V) -> Result<V, Self::Error> {
        arbitrary()
    }

    /// Computes the association of `lhs` with `rhs`, in this order.
    ///
    /// Returns `Err` if the operation fails.
    fn associate(lhs: &V, rhs: &V) -> (r: Result<V, Self::Error>)
        requires
            Self::associate_req(*lhs, *rhs),
        ensures
            r == Self::associate_spec(*lhs, *rhs),
    ;
}

/// Whether `associate` may be applied to `lhs` and `rhs` and gives a value.
pub open spec fn is_defined<V, O: AssociativeOperation<V>>(lhs: V, rhs: V) -> bool {
    O::associate_req(lhs, rhs) && O::associate_spec(lhs, rhs) is Ok
}

/// Whether the operation is defined on every pair of values.
pub open spec fn is_total<V, O: AssociativeOperation<V>>() -> bool {
    forall|x: V, y: V| O::associate_req(x, y) && #[trigger] O::associate_spec(x, y) is Ok
}

/// Whether grouping does not matter: combining `x` with `y` and then with `z` gives what
/// combining `x` with the combination of `y` and `z` gives, wherever all four combinations
/// are defined.
pub open spec fn is_associative<V, O: AssociativeOperation<V>>() -> bool {
    forall|x: V, y: V, z: V|
        #![trigger O::associate_spec(O::associate_spec(x, y)->Ok_0, z)]
        is_defined::<V, O>(x, y) && is_defined::<V, O>(y, z) && is_defined::<V, O>(
            O::associate_spec(x, y)->Ok_0,
            z,
        ) && is_defined::<V, O>(x, O::associate_spec(y, z)->Ok_0) ==> O::associate_spec(
            O::associate_spec(x, y)->Ok_0,
            z,
        ) == O::associate_spec(x, O::associate_spec(y, z)->Ok_0)
}

/// Whether the operation gives what the function `total` gives wherever it is defined: the
/// operation is then `total` kept to some pairs, as addition without overflow is addition
/// modulo a power of two kept to the pairs whose sum fits.
pub open spec fn agrees_with<V, O: AssociativeOperation<V>>(total: spec_fn(V, V) -> V) -> bool {
    forall|x: V, y: V|
        O::associate_req(x, y) && (#[trigger] O::associate_spec(x, y)) is Ok ==> O::associate_spec(
            x,
            y,
        ) == Ok::<V, O::Error>(total(x, y))
}

/// Whether grouping does not matter to the function `total`.
pub open spec fn groups_freely<V>(total: spec_fn(V, V) -> V) -> bool {
    forall|x: V, y: V, z: V| #[trigger] total(total(x, y), z) == total(x, total(y, z))
}

/// A default associative operation for types that implement [`WithDefaultOperation`].
pub struct DefaultOperation;

impl<V> AssociativeOperation<V> for DefaultOperation where V: WithDefaultOperation {
    type Error = V::Error;

    open spec fn associate_req(lhs: V, rhs: V) -> bool {
        lhs.default_associate_req(&rhs)
    }

    open spec fn associate_spec(lhs: V, rhs: V) -> Result<V, V::Error> {
        lhs.default_associate_spec(&rhs)
    }

    #[inline]
    fn associate(lhs: &V, rhs: &V) -> (r: Result<V, V::Error>) {
        lhs.default_associate(rhs)
    }
}

/// Clone and add operation.
///
/// May be applied where `V`'s `add` follows its specification and admits the pair, and
/// where cloning a `V` gives an equal value.
#[derive(Debug)]
pub struct CloneAdd;

impl<V> AssociativeOperation<V> for CloneAdd where V: Clone + std::ops::Add<V, Output = V> {
    type Error = std::convert::Infallible;

    open spec fn associate_req(lhs: V, rhs: V) -> bool {
        &&& V::obeys_add_spec()
        &&& clone_is_exact::<V>()
        &&& lhs.add_req(rhs)
    }

    open spec fn associate_spec(lhs: V, rhs: V) -> Result<V, std::convert::Infallible> {
        Ok(lhs.add_spec(rhs))
    }

    #[inline]
    fn associate(lhs: &V, rhs: &V) -> (r: Result<V, std::convert::Infallible>) {
        let left = lhs.clone();
        let right = rhs.clone();
        assert(cloned::<V>(*lhs, left) && cloned::<V>(*rhs, right));
        Ok(left + right)
    }
}

/// Clone and multiply operation.
///
/// May be applied where `V`'s `mul` follows its specification and admits the pair, and
/// where cloning a `V` gives an equal value.
#[derive(Debug)]
pub struct CloneMul;

impl<V> AssociativeOperation<V> for CloneMul where V: Clone + std::ops::Mul<V, Output = V> {
    type Error = std::convert::Infallible;

    open spec fn associate_req(lhs: V, rhs: V) -> bool {
        &&& V::obeys_mul_spec()
        &&& clone_is_exact::<V>()
        &&& lhs.mul_req(rhs)
    }

    open spec fn associate_spec(lhs: V, rhs: V) -> Result<V, std::convert::Infallible> {
        Ok(lhs.mul_spec(rhs))
    }

    #[inline]
    fn associate(lhs: &V, rhs: &V) -> (r: Result<V, std::convert::Infallible>) {
        let left = lhs.clone();
        let right = rhs.clone();
        assert(cloned::<V>(*lhs, left) && cloned::<V>(*rhs, right));
        Ok(left * right)
    }
}

/// Clone and bitwise or operation.
///
/// May be applied where `V`'s `bitor` follows its specification and admits the pair, and
/// where cloning a `V` gives an equal value.
#[derive(Debug)]
pub struct CloneBitOr;

impl<V> AssociativeOperation<V> for CloneBitOr where V: Clone + std::ops::BitOr<V, Output = V> {
    type Error = std::convert::Infallible;

    open spec fn associate_req(lhs: V, rhs: V) -> bool {
        &&& V::obeys_bitor_spec()
        &&& clone_is_exact::<V>()
        &&& lhs.bitor_req(rhs)
    }

    open spec fn associate_spec(lhs: V, rhs: V) -> Result<V, std::convert::Infallible> {
        Ok(lhs.bitor_spec(rhs))
    }

    #[inline]
    fn associate(lhs: &V, rhs: &V) -> (r: Result<V, std::convert::Infallible>) {
        let left = lhs.clone();
        let right = rhs.clone();
        assert(cloned::<V>(*lhs, left) && cloned::<V>(*rhs, right));
        Ok(left | right)
    }
}

/// Clone and bitwise and operation.
///
/// May be applied where `V`'s `bitand` follows its specification and admits the pair, and
/// where cloning a `V` gives an equal value.
#[derive(Debug)]
pub struct CloneBitAnd;

impl<V> AssociativeOperation<V> for CloneBitAnd where V: Clone + std::ops::BitAnd<V, Output = V> {
    type Error = std::convert::Infallible;

    open spec fn associate_req(lhs: V, rhs: V) -> bool {
        &&& V::obeys_bitand_spec()
        &&& clone_is_exact::<V>()
        &&& lhs.bitand_req(rhs)
    }

    open spec fn associate_spec(lhs: V, rhs: V) -> Result<V, std::convert::Infallible> {
        Ok(lhs.bitand_spec(rhs))
    }

    #[inline]
    fn associate(lhs: &V, rhs: &V) -> (r: Result<V, std::convert::Infallible>) {
        let left = lhs.clone();
        let right = rhs.clone();
        assert(cloned::<V>(*lhs, left) && cloned::<V>(*rhs, right));
        Ok(left & right)
    }
}

/// Clone and bitwise xor operation.
///
/// May be applied where `V`'s `bitxor` follows its specification and admits the pair, and
/// where cloning a `V` gives an equal value.
#[derive(Debug)]
pub struct CloneBitXor;

impl<V> AssociativeOperation<V> for CloneBitXor where V: Clone + std::ops::BitXor<V, Output = V> {
    type Error = std::convert::Infallible;

    open spec fn associate_req(lhs: V, rhs: V) -> bool {
        &&& V::obeys_bitxor_spec()
        &&& clone_is_exact::<V>()
        &&& lhs.bitxor_req(rhs)
    }

    open spec fn associate_spec(lhs: V, rhs: V) -> Result<V, std::convert::Infallible> {
        Ok(lhs.bitxor_spec(rhs))
    }

    #[inline]
    fn associate(lhs: &V, rhs: &V) -> (r: Result<V, std::convert::Infallible>) {
        let left = lhs.clone();
        let right = rhs.clone();
        assert(cloned::<V>(*lhs, left) && cloned::<V>(*rhs, right));
        Ok(left ^ right)
    }
}

/// Fallible version of [`CloneAdd`].
///
/// May be applied where `V`'s `add` follows its specification and admits the pair, and
/// where cloning a `V` gives an equal value.
#[derive(Debug)]
pub struct FallibleCloneAdd;

impl<V, E> AssociativeOperation<V> for FallibleCloneAdd where
    V: Clone + std::ops::Add<V, Output = Result<V, E>>,
 {
    type Error = E;

    open spec fn associate_req(lhs: V, rhs: V) -> bool {
        &&& V::obeys_add_spec()
        &&& clone_is_exact::<V>()
        &&& lhs.add_req(rhs)
    }

    open spec fn associate_spec(lhs: V, rhs: V) -> Result<V, E> {
        lhs.add_spec(rhs)
    }

    #[inline]
    fn associate(lhs: &V, rhs: &V) -> (r: Result<V, E>) {
        let left = lhs.clone();
        let right = rhs.clone();
        assert(cloned::<V>(*lhs, left) && cloned::<V>(*rhs, right));
        left + right
    }
}

/// Fallible version of [`CloneMul`].
///
/// May be applied where `V`'s `mul` follows its specification and admits the pair, and
/// where cloning a `V` gives an equal value.
#[derive(Debug)]
pub struct FallibleCloneMul;

impl<V, E> AssociativeOperation<V> for FallibleCloneMul where
    V: Clone + std::ops::Mul<V, Output = Result<V, E>>,
 {
    type Error = E;

    open spec fn associate_req(lhs: V, rhs: V) -> bool {
        &&& V::obeys_mul_spec()
        &&& clone_is_exact::<V>()
        &&& lhs.mul_req(rhs)
    }

    open spec fn associate_spec(lhs: V, rhs: V) -> Result<V, E> {
        lhs.mul_spec(rhs)
    }

    #[inline]
    fn associate(lhs: &V, rhs: &V) -> (r: Result<V, E>) {
        let left = lhs.clone();
        let right = rhs.clone();
        assert(cloned::<V>(*lhs, left) && cloned::<V>(*rhs, right));
        left * right
    }
}

/// Fallible version of [`CloneBitOr`].
///
/// May be applied where `V`'s `bitor` follows its specification and admits the pair, and
/// where cloning a `V` gives an equal value.
#[derive(Debug)]
pub struct FallibleCloneBitOr;

impl<V, E> AssociativeOperation<V> for FallibleCloneBitOr where
    V: Clone + std::ops::BitOr<V, Output = Result<V, E>>,
 {
    type Error = E;

    open spec fn associate_req(lhs: V, rhs: V) -> bool {
        &&& V::obeys_bitor_spec()
        &&& clone_is_exact::<V>()
        &&& lhs.bitor_req(rhs)
    }

    open spec fn associate_spec(lhs: V, rhs: V) -> Result<V, E> {
        lhs.bitor_spec(rhs)
    }

    #[inline]
    fn associate(lhs: &V, rhs: &V) -> (r: Result<V, E>) {
        let left = lhs.clone();
        let right = rhs.clone();
        assert(cloned::<V>(*lhs, left) && cloned::<V>(*rhs, right));
        left | right
    }
}

/// Fallible version of [`CloneBitAnd`].
///
/// May be applied where `V`'s `bitand` follows its specification and admits the pair, and
/// where cloning a `V` gives an equal value.
#[derive(Debug)]
pub struct FallibleCloneBitAnd;

impl<V, E> AssociativeOperation<V> for FallibleCloneBitAnd where
    V: Clone + std::ops::BitAnd<V, Output = Result<V, E>>,
 {
    type Error = E;

    open spec fn associate_req(lhs: V, rhs: V) -> bool {
        &&& V::obeys_bitand_spec()
        &&& clone_is_exact::<V>()
        &&& lhs.bitand_req(rhs)
    }

    open spec fn associate_spec(lhs: V, rhs: V) -> Result<V, E> {
        lhs.bitand_spec(rhs)
    }

    #[inline]
    fn associate(lhs: &V, rhs: &V) -> (r: Result<V, E>) {
        let left = lhs.clone();
        let right = rhs.clone();
        assert(cloned::<V>(*lhs, left) && cloned::<V>(*rhs, right));
        left & right
    }
}

/// Fallible version of [`CloneBitXor`].
///
/// May be applied where `V`'s `bitxor` follows its specification and admits the pair, and
/// where cloning a `V` gives an equal value.
#[derive(Debug)]
pub struct FallibleCloneBitXor;

impl<V, E> AssociativeOperation<V> for FallibleCloneBitXor where
    V: Clone + std::ops::BitXor<V, Output = Result<V, E>>,
 {
    type Error = E;

    open spec fn associate_req(lhs: V, rhs: V) -> bool {
        &&& V::obeys_bitxor_spec()
        &&& clone_is_exact::<V>()
        &&& lhs.bitxor_req(rhs)
    }

    open spec fn associate_spec(lhs: V, rhs: V) -> Result<V, E> {
        lhs.bitxor_spec(rhs)
    }

    #[inline]
    fn associate(lhs: &V, rhs: &V) -> (r: Result<V, E>) {
        let left = lhs.clone();
        let right = rhs.clone();
        assert(cloned::<V>(*lhs, left) && cloned::<V>(*rhs, right));
        left ^ right
    }
}

} // verus!
