use eval_link_update::operation::CloneAdd;
use eval_link_update::operation::CloneBitAnd;
use eval_link_update::operation::CloneBitOr;
use eval_link_update::operation::CloneBitXor;
use eval_link_update::operation::CloneMul;
use eval_link_update::operation::DefaultOperation;
use eval_link_update::operation::FallibleCloneAdd;
use eval_link_update::operation::FallibleCloneBitAnd;
use eval_link_update::operation::FallibleCloneBitOr;
use eval_link_update::operation::FallibleCloneBitXor;
use eval_link_update::operation::FallibleCloneMul;
use eval_link_update::operation::WithDefaultOperation;
use eval_link_update::AssociativeOperation;

/// A number that refuses to meet zero, whatever the operator.
#[derive(Debug, Clone, Copy, PartialEq, Eq)]
struct Picky(u32);

#[derive(Debug, Clone, Copy, PartialEq, Eq)]
struct MetZero;

fn picky(lhs: Picky, rhs: Picky, value: u32) -> Result<Picky, MetZero> {
    if lhs.0 == 0 || rhs.0 == 0 {
        Err(MetZero)
    } else {
        Ok(Picky(value))
    }
}

impl std::ops::Add for Picky {
    type Output = Result<Picky, MetZero>;

    fn add(self, rhs: Picky) -> Self::Output {
        picky(self, rhs, self.0 + rhs.0)
    }
}

impl std::ops::Mul for Picky {
    type Output = Result<Picky, MetZero>;

    fn mul(self, rhs: Picky) -> Self::Output {
        picky(self, rhs, self.0 * rhs.0)
    }
}

impl std::ops::BitOr for Picky {
    type Output = Result<Picky, MetZero>;

    fn bitor(self, rhs: Picky) -> Self::Output {
        picky(self, rhs, self.0 | rhs.0)
    }
}

impl std::ops::BitAnd for Picky {
    type Output = Result<Picky, MetZero>;

    fn bitand(self, rhs: Picky) -> Self::Output {
        picky(self, rhs, self.0 & rhs.0)
    }
}

impl std::ops::BitXor for Picky {
    type Output = Result<Picky, MetZero>;

    fn bitxor(self, rhs: Picky) -> Self::Output {
        picky(self, rhs, self.0 ^ rhs.0)
    }
}

/// Subtraction as a default operation: the order of the operands shows.
#[derive(Debug, Clone, Copy, PartialEq, Eq)]
struct Minus(i32);

impl WithDefaultOperation for Minus {
    type Error = String;

    fn default_associate(&self, rhs: &Self) -> Result<Self, String> {
        match self.0.checked_sub(rhs.0) {
            Some(difference) => Ok(Minus(difference)),
            None => Err(format!("{} - {}", self.0, rhs.0)),
        }
    }
}

#[test]
fn clone_add_adds() {
    assert_eq!(Ok(7u64), <CloneAdd as AssociativeOperation<u64>>::associate(&3, &4));
    assert_eq!(Ok(-1i32), <CloneAdd as AssociativeOperation<i32>>::associate(&3, &-4));
    assert_eq!(Ok(255u8), <CloneAdd as AssociativeOperation<u8>>::associate(&255, &0));
}

#[test]
fn clone_mul_multiplies() {
    assert_eq!(Ok(12u64), <CloneMul as AssociativeOperation<u64>>::associate(&3, &4));
    assert_eq!(Ok(0u8), <CloneMul as AssociativeOperation<u8>>::associate(&255, &0));
    assert_eq!(Ok(-12i64), <CloneMul as AssociativeOperation<i64>>::associate(&3, &-4));
}

#[test]
fn clone_bit_or_ors() {
    assert_eq!(Ok(0b1110u8), <CloneBitOr as AssociativeOperation<u8>>::associate(&0b1100, &0b1010));
    assert_eq!(Ok(true), <CloneBitOr as AssociativeOperation<bool>>::associate(&false, &true));
}

#[test]
fn clone_bit_and_ands() {
    assert_eq!(Ok(0b1000u8), <CloneBitAnd as AssociativeOperation<u8>>::associate(&0b1100, &0b1010));
    assert_eq!(Ok(false), <CloneBitAnd as AssociativeOperation<bool>>::associate(&false, &true));
}

#[test]
fn clone_bit_xor_xors() {
    assert_eq!(Ok(0b0110u8), <CloneBitXor as AssociativeOperation<u8>>::associate(&0b1100, &0b1010));
    assert_eq!(Ok(false), <CloneBitXor as AssociativeOperation<bool>>::associate(&true, &true));
}

#[test]
fn fallible_operations_hand_on_the_value() {
    let a = Picky(12);
    let b = Picky(10);
    assert_eq!(Ok(Picky(22)), FallibleCloneAdd::associate(&a, &b));
    assert_eq!(Ok(Picky(120)), FallibleCloneMul::associate(&a, &b));
    assert_eq!(Ok(Picky(14)), FallibleCloneBitOr::associate(&a, &b));
    assert_eq!(Ok(Picky(8)), FallibleCloneBitAnd::associate(&a, &b));
    assert_eq!(Ok(Picky(6)), FallibleCloneBitXor::associate(&a, &b));
}

#[test]
fn fallible_operations_hand_on_the_failure() {
    let a = Picky(12);
    let zero = Picky(0);
    assert_eq!(Err(MetZero), FallibleCloneAdd::associate(&a, &zero));
    assert_eq!(Err(MetZero), FallibleCloneMul::associate(&zero, &a));
    assert_eq!(Err(MetZero), FallibleCloneBitOr::associate(&a, &zero));
    assert_eq!(Err(MetZero), FallibleCloneBitAnd::associate(&zero, &a));
    assert_eq!(Err(MetZero), FallibleCloneBitXor::associate(&a, &zero));
}

#[test]
fn default_operation_defers_to_the_value() {
    assert_eq!(Ok(Minus(7)), DefaultOperation::associate(&Minus(10), &Minus(3)));
    assert_eq!(Ok(Minus(-7)), DefaultOperation::associate(&Minus(3), &Minus(10)));
    assert_eq!(
        Err("-2147483648 - 1".to_string()),
        DefaultOperation::associate(&Minus(i32::MIN), &Minus(1))
    );
}
