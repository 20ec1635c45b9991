use eval_link_update::operation::CloneAdd;
use eval_link_update::CompressedForest;
use eval_link_update::EvalLinkUpdate;

#[test]
fn index_converts_to_its_position() {
    let mut forest: CompressedForest<u8, CloneAdd> = CompressedForest::new();
    let a = forest.new_root(1);
    let b = forest.new_root(2);
    let position: usize = b.into();
    assert_eq!(1, position);
    assert_eq!(0, usize::from(a));
}

#[test]
fn index_is_copied() {
    let mut forest: CompressedForest<u8, CloneAdd> = CompressedForest::new();
    let a = forest.new_root(1);
    let copy = a;
    let clone = a.clone();
    assert!(a == copy);
    assert!(a == clone);
    assert_eq!(1, forest.eval(copy));
    assert_eq!(1, forest.eval(clone));
    assert_eq!(1, forest.eval(a));
}

#[test]
fn index_compares_by_position() {
    let mut forest: CompressedForest<u8, CloneAdd> = CompressedForest::new();
    let a = forest.new_root(1);
    let b = forest.new_root(2);
    assert!(a != b);
    assert!(a < b);
    assert!(b > a);
    assert!(a <= a);
    assert!(b >= a);
    assert_eq!(Some(std::cmp::Ordering::Less), a.partial_cmp(&b));
    assert_eq!(Some(std::cmp::Ordering::Equal), b.partial_cmp(&b));
    assert_eq!(Some(std::cmp::Ordering::Greater), b.partial_cmp(&a));
}
