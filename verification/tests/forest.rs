use eval_link_update::operation::CloneAdd;
use eval_link_update::operation::CloneBitOr;
use eval_link_update::operation::CloneMul;
use eval_link_update::operation::DefaultOperation;
use eval_link_update::operation::FallibleCloneAdd;
use eval_link_update::operation::WithDefaultOperation;
use eval_link_update::CompressedForest;
use eval_link_update::EvalLinkUpdate;

/// A word under concatenation: associative, not commutative, never failing.
#[derive(Debug, Clone, PartialEq, Eq)]
struct Word(String);

impl WithDefaultOperation for Word {
    type Error = std::convert::Infallible;

    fn default_associate(&self, rhs: &Self) -> Result<Self, Self::Error> {
        Ok(Word(format!("{}{}", self.0, rhs.0)))
    }
}

fn word(s: &str) -> Word {
    Word(s.to_string())
}

/// A byte whose addition fails where the sum does not fit.
#[derive(Debug, Clone, Copy, PartialEq, Eq)]
struct Small(u8);

#[derive(Debug, Clone, Copy, PartialEq, Eq)]
struct TooLarge(u8, u8);

impl std::ops::Add for Small {
    type Output = Result<Small, TooLarge>;

    fn add(self, rhs: Small) -> Result<Small, TooLarge> {
        match self.0.checked_add(rhs.0) {
            Some(sum) => Ok(Small(sum)),
            None => Err(TooLarge(self.0, rhs.0)),
        }
    }
}

#[test]
fn add_forest() {
    let mut forest: CompressedForest<usize, CloneAdd> = CompressedForest::with_capacity(4);
    let v0 = forest.new_root(2);
    let v1 = forest.new_root(3);
    let v2 = forest.new_root(4);
    let v3 = forest.new_root(5);

    forest.try_link(v0, v1).unwrap();
    forest.try_link(v2, v3).unwrap();

    assert_eq!(5, forest.try_eval(v1).unwrap());
    assert_eq!(9, forest.try_eval(v3).unwrap());

    forest.try_link(v3, v0).unwrap();

    assert_eq!(11, forest.try_eval(v0).unwrap());
    assert_eq!(14, forest.try_eval(v1).unwrap());
}

#[test]
fn mul_forest() {
    let mut forest: CompressedForest<usize, CloneMul> = CompressedForest::with_capacity(4);
    let v0 = forest.new_root(2);
    let v1 = forest.new_root(3);
    let v2 = forest.new_root(4);
    let v3 = forest.new_root(5);

    forest.link(v0, v1);
    forest.link(v2, v3);

    assert_eq!(6, forest.eval(v1));
    assert_eq!(20, forest.eval(v3));

    forest.link(v3, v0);

    assert_eq!(40, forest.eval(v0));
    assert_eq!(120, forest.eval(v1));
}

#[test]
fn fresh_root_evaluates_to_its_value() {
    let mut forest: CompressedForest<usize, CloneAdd> = CompressedForest::new();
    let a = forest.new_root(7);
    assert_eq!(Ok(7), forest.try_eval(a));
    let b = forest.new_root(0);
    assert_eq!(0, forest.eval(b));
    assert_eq!(7, forest.eval(a));
}

#[test]
fn empty_forests_take_roots() {
    let mut made: CompressedForest<usize, CloneAdd> = CompressedForest::new();
    let mut sized: CompressedForest<usize, CloneAdd> = CompressedForest::with_capacity(0);
    let mut plain: CompressedForest<usize, CloneAdd> = CompressedForest::default();
    let a = made.new_root(1);
    let b = sized.new_root(2);
    let c = plain.new_root(3);
    assert_eq!(0, usize::from(a));
    assert_eq!(0, usize::from(b));
    assert_eq!(0, usize::from(c));
    assert_eq!(1, made.eval(a));
    assert_eq!(2, sized.eval(b));
    assert_eq!(3, plain.eval(c));
}

#[test]
fn new_roots_are_numbered_in_order() {
    let mut forest: CompressedForest<usize, CloneAdd> = CompressedForest::new();
    let a = forest.new_root(10);
    let b = forest.new_root(20);
    let c = forest.new_root(30);
    assert_eq!(0, usize::from(a));
    assert_eq!(1, usize::from(b));
    assert_eq!(2, usize::from(c));
    assert!(a < b && b < c);
}

#[test]
fn reserve_changes_no_value() {
    let mut forest: CompressedForest<usize, CloneAdd> = CompressedForest::new();
    let a = forest.new_root(2);
    let b = forest.new_root(3);
    forest.link(a, b);
    forest.reserve(100);
    assert_eq!(5, forest.eval(b));
    assert_eq!(2, forest.eval(a));
    let c = forest.new_root(4);
    assert_eq!(2, usize::from(c));
    assert_eq!(4, forest.eval(c));
}

#[test]
fn clone_is_independent() {
    let mut forest: CompressedForest<usize, CloneAdd> = CompressedForest::new();
    let a = forest.new_root(2);
    let b = forest.new_root(3);
    forest.link(a, b);
    let mut copy = forest.clone();
    copy.update(b, 10);
    assert_eq!(13, copy.eval(b));
    assert_eq!(5, forest.eval(b));
    assert_eq!(2, forest.eval(a));
}

#[test]
fn two_level_fold_keeps_the_order() {
    let mut forest: CompressedForest<Word> = CompressedForest::new();
    let a = forest.new_root(word("a"));
    let b = forest.new_root(word("b"));
    forest.link(a, b);
    assert_eq!(word("ab"), forest.eval(b));
    assert_eq!(word("a"), forest.eval(a));
}

#[test]
fn chain_folds_from_the_root_down() {
    let mut forest: CompressedForest<Word> = CompressedForest::new();
    let a = forest.new_root(word("a"));
    let b = forest.new_root(word("b"));
    let c = forest.new_root(word("c"));
    let d = forest.new_root(word("d"));
    let e = forest.new_root(word("e"));
    forest.link(d, e);
    forest.link(c, d);
    forest.link(b, c);
    forest.link(a, b);
    assert_eq!(word("abcde"), forest.eval(e));
    assert_eq!(word("abcd"), forest.eval(d));
    assert_eq!(word("abc"), forest.eval(c));
    assert_eq!(word("ab"), forest.eval(b));
    assert_eq!(word("a"), forest.eval(a));
}

#[test]
fn eval_twice_gives_the_same() {
    let mut forest: CompressedForest<Word> = CompressedForest::new();
    let a = forest.new_root(word("a"));
    let b = forest.new_root(word("b"));
    let c = forest.new_root(word("c"));
    let d = forest.new_root(word("d"));
    forest.link(c, d);
    forest.link(b, c);
    forest.link(a, b);
    let once = forest.eval(d);
    let twice = forest.eval(d);
    assert_eq!(word("abcd"), once);
    assert_eq!(once, twice);
    assert_eq!(word("abc"), forest.eval(c));
    assert_eq!(word("abcd"), forest.eval(d));
    assert_eq!(word("ab"), forest.eval(b));
}

#[test]
fn update_through_a_descendant_changes_the_root() {
    let mut forest: CompressedForest<Word> = CompressedForest::new();
    let a = forest.new_root(word("a"));
    let b = forest.new_root(word("b"));
    let c = forest.new_root(word("c"));
    let d = forest.new_root(word("d"));
    let other = forest.new_root(word("o"));
    forest.link(a, b);
    forest.link(b, c);
    forest.link(a, d);
    forest.update(c, word("X"));
    assert_eq!(word("X"), forest.eval(a));
    assert_eq!(word("Xb"), forest.eval(b));
    assert_eq!(word("Xbc"), forest.eval(c));
    assert_eq!(word("Xd"), forest.eval(d));
    assert_eq!(word("o"), forest.eval(other));
}

#[test]
fn update_of_a_root_replaces_its_value() {
    let mut forest: CompressedForest<usize, CloneAdd> = CompressedForest::new();
    let a = forest.new_root(2);
    let b = forest.new_root(3);
    forest.link(a, b);
    forest.try_update(a, 10).unwrap();
    assert_eq!(10, forest.eval(a));
    assert_eq!(13, forest.eval(b));
}

#[test]
fn link_at_a_node_below_the_root() {
    let mut forest: CompressedForest<Word> = CompressedForest::new();
    let a = forest.new_root(word("a"));
    let b = forest.new_root(word("b"));
    let c = forest.new_root(word("c"));
    let x = forest.new_root(word("x"));
    let y = forest.new_root(word("y"));
    let z = forest.new_root(word("z"));
    forest.link(a, b);
    forest.link(b, c);
    forest.link(x, y);
    forest.link(y, z);
    // attach the tree of x at c, naming it by its leaf
    forest.link(c, z);
    assert_eq!(word("abcx"), forest.eval(x));
    assert_eq!(word("abcxy"), forest.eval(y));
    assert_eq!(word("abcxyz"), forest.eval(z));
    assert_eq!(word("abc"), forest.eval(c));
    assert_eq!(word("ab"), forest.eval(b));
    assert_eq!(word("a"), forest.eval(a));
    // the whole is one tree now: an update through z reaches a
    forest.update(z, word("A"));
    assert_eq!(word("Abcxyz"), forest.eval(z));
    assert_eq!(word("Ab"), forest.eval(b));
}

#[test]
fn link_at_a_node_below_the_root_with_each_combinator() {
    let mut sum: CompressedForest<u32, CloneAdd> = CompressedForest::new();
    let mut product: CompressedForest<u32, CloneMul> = CompressedForest::new();
    let mut bits: CompressedForest<u32, CloneBitOr> = CompressedForest::new();
    let s: Vec<_> = [2u32, 3, 4, 5].iter().map(|v| sum.new_root(*v)).collect();
    let p: Vec<_> = [2u32, 3, 4, 5].iter().map(|v| product.new_root(*v)).collect();
    let b: Vec<_> = [1u32, 2, 4, 8].iter().map(|v| bits.new_root(*v)).collect();
    sum.link(s[0], s[1]);
    sum.link(s[2], s[3]);
    sum.link(s[1], s[3]);
    product.link(p[0], p[1]);
    product.link(p[2], p[3]);
    product.link(p[1], p[3]);
    bits.link(b[0], b[1]);
    bits.link(b[2], b[3]);
    bits.link(b[1], b[3]);
    assert_eq!(2 + 3 + 4, sum.eval(s[2]));
    assert_eq!(2 + 3 + 4 + 5, sum.eval(s[3]));
    assert_eq!(2 * 3 * 4, product.eval(p[2]));
    assert_eq!(2 * 3 * 4 * 5, product.eval(p[3]));
    assert_eq!(7, bits.eval(b[2]));
    assert_eq!(15, bits.eval(b[3]));
    assert_eq!(3, bits.eval(b[1]));
}

#[test]
fn failed_eval_returns_the_failure_and_harms_nothing() {
    let mut forest: CompressedForest<Small, FallibleCloneAdd> = CompressedForest::new();
    let a = forest.new_root(Small(1));
    let b = forest.new_root(Small(200));
    let c = forest.new_root(Small(100));
    let d = forest.new_root(Small(1));
    let e = forest.new_root(Small(50));
    // linked from the leaves up, so that no link has to combine anything
    forest.try_link(c, d).unwrap();
    forest.try_link(b, c).unwrap();
    forest.try_link(a, b).unwrap();
    forest.try_link(a, e).unwrap();
    assert_eq!(Ok(Small(201)), forest.try_eval(b));
    assert_eq!(Ok(Small(51)), forest.try_eval(e));
    // the chain a - b - c: 200 and 100 do not add up
    assert_eq!(Err(TooLarge(200, 100)), forest.try_eval(c));
    assert_eq!(Err(TooLarge(200, 100)), forest.try_eval(d));
    assert_eq!(Err(TooLarge(200, 100)), forest.try_eval(c));
    // what was evaluated before still is
    assert_eq!(Ok(Small(201)), forest.try_eval(b));
    assert_eq!(Ok(Small(51)), forest.try_eval(e));
    assert_eq!(Ok(Small(1)), forest.try_eval(a));
}

#[test]
fn failed_eval_at_the_root_value() {
    let mut forest: CompressedForest<Small, FallibleCloneAdd> = CompressedForest::new();
    let a = forest.new_root(Small(250));
    let b = forest.new_root(Small(3));
    let c = forest.new_root(Small(3));
    forest.try_link(a, b).unwrap();
    forest.try_link(b, c).unwrap();
    assert_eq!(Ok(Small(253)), forest.try_eval(b));
    assert_eq!(Err(TooLarge(250, 6)), forest.try_eval(c));
    assert_eq!(Ok(Small(253)), forest.try_eval(b));
    forest.try_update(c, Small(1)).unwrap();
    assert_eq!(Ok(Small(7)), forest.try_eval(c));
    assert_eq!(Ok(Small(4)), forest.try_eval(b));
}

#[test]
fn failed_update_returns_the_failure_and_harms_nothing() {
    let mut forest: CompressedForest<Small, FallibleCloneAdd> = CompressedForest::new();
    let a = forest.new_root(Small(1));
    let b = forest.new_root(Small(200));
    let c = forest.new_root(Small(100));
    let e = forest.new_root(Small(50));
    forest.try_link(b, c).unwrap();
    forest.try_link(a, b).unwrap();
    forest.try_link(a, e).unwrap();
    assert_eq!(Err(TooLarge(200, 100)), forest.try_update(c, Small(0)));
    // the root kept its value
    assert_eq!(Ok(Small(1)), forest.try_eval(a));
    assert_eq!(Ok(Small(201)), forest.try_eval(b));
    assert_eq!(Ok(Small(51)), forest.try_eval(e));
    assert_eq!(Err(TooLarge(200, 100)), forest.try_eval(c));
}

#[test]
fn failed_link_returns_the_failure_and_links_nothing() {
    let mut forest: CompressedForest<Small, FallibleCloneAdd> = CompressedForest::new();
    let a = forest.new_root(Small(1));
    let b = forest.new_root(Small(200));
    let x = forest.new_root(Small(100));
    let y = forest.new_root(Small(5));
    forest.try_link(a, b).unwrap();
    forest.try_link(x, y).unwrap();
    // linking at b puts 200 in front of 100
    assert_eq!(Err(TooLarge(200, 100)), forest.try_link(b, y));
    assert_eq!(Ok(Small(100)), forest.try_eval(x));
    assert_eq!(Ok(Small(105)), forest.try_eval(y));
    assert_eq!(Ok(Small(201)), forest.try_eval(b));
    // the trees are still apart
    forest.try_update(a, Small(2)).unwrap();
    assert_eq!(Ok(Small(202)), forest.try_eval(b));
    assert_eq!(Ok(Small(100)), forest.try_eval(x));
    assert_eq!(Ok(Small(105)), forest.try_eval(y));
    // and linking at the root still works
    forest.try_link(a, y).unwrap();
    assert_eq!(Ok(Small(102)), forest.try_eval(x));
    assert_eq!(Ok(Small(107)), forest.try_eval(y));
}

#[test]
fn failed_link_in_the_first_chain() {
    let mut forest: CompressedForest<Small, FallibleCloneAdd> = CompressedForest::new();
    let a = forest.new_root(Small(1));
    let b = forest.new_root(Small(200));
    let c = forest.new_root(Small(100));
    let x = forest.new_root(Small(7));
    forest.try_link(b, c).unwrap();
    forest.try_link(a, b).unwrap();
    assert_eq!(Err(TooLarge(200, 100)), forest.try_link(c, x));
    assert_eq!(Ok(Small(7)), forest.try_eval(x));
    assert_eq!(Ok(Small(201)), forest.try_eval(b));
}

#[test]
fn failed_link_in_the_second_chain() {
    let mut forest: CompressedForest<Small, FallibleCloneAdd> = CompressedForest::new();
    let a = forest.new_root(Small(1));
    let b = forest.new_root(Small(200));
    let c = forest.new_root(Small(100));
    let x = forest.new_root(Small(7));
    forest.try_link(b, c).unwrap();
    forest.try_link(a, b).unwrap();
    assert_eq!(Err(TooLarge(200, 100)), forest.try_link(x, c));
    assert_eq!(Ok(Small(7)), forest.try_eval(x));
    assert_eq!(Ok(Small(1)), forest.try_eval(a));
    assert_eq!(Ok(Small(201)), forest.try_eval(b));
}

#[test]
fn default_operation_is_the_default() {
    let mut forest: CompressedForest<Word, DefaultOperation> = CompressedForest::new();
    let a = forest.new_root(word("left"));
    let b = forest.new_root(word("right"));
    forest.try_link(a, b).unwrap();
    assert_eq!(Ok(word("leftright")), forest.try_eval(b));
}
