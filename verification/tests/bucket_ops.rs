use kbucket::bucket::Bucket;
use kbucket::error::BucketError;
use kbucket::id::Id;
use kbucket::node::{Address, Node};

fn addr() -> Address {
    Address { ip: 0x7f000001, port: 4000 }
}

fn remote(id: u32) -> Node {
    Node::new(Id::new(id), addr(), false)
}

fn local(id: u32) -> Node {
    Node::new(Id::new(id), addr(), true)
}

#[test]
fn new_bucket_is_empty() {
    let b = Bucket::new(8, Id::new(0), Id::new(100));
    assert_eq!(b.nodes().len(), 0);
    assert!(!b.contains_local());
}

#[test]
fn fits_is_strictly_exclusive() {
    let b = Bucket::new(8, Id::new(10), Id::new(20));
    assert!(!b.fits(&Id::new(10)));
    assert!(b.fits(&Id::new(11)));
    assert!(b.fits(&Id::new(19)));
    assert!(!b.fits(&Id::new(20)));
    assert!(!b.fits(&Id::new(5)));
    assert!(!b.fits(&Id::new(25)));
}

#[test]
fn add_node_in_range_succeeds() {
    let mut b = Bucket::new(2, Id::new(0), Id::new(16));
    assert_eq!(b.add_node(remote(5)), Ok(()));
    assert_eq!(b.nodes().len(), 1);
    assert_eq!(b.nodes()[0].id(), Id::new(5));
}

#[test]
fn add_node_out_of_range_is_incorrect_bucket() {
    let mut b = Bucket::new(2, Id::new(0), Id::new(16));
    assert_eq!(b.add_node(remote(16)), Err(BucketError::IncorrectBucket));
    assert_eq!(b.add_node(remote(0)), Err(BucketError::IncorrectBucket));
    assert_eq!(b.nodes().len(), 0);
}

#[test]
fn capacity_is_never_exceeded() {
    let mut b = Bucket::new(2, Id::new(0), Id::new(16));
    assert_eq!(b.add_node(remote(3)), Ok(()));
    assert_eq!(b.add_node(remote(4)), Ok(()));
    assert_eq!(b.add_node(remote(5)), Err(BucketError::BucketFull));
    assert_eq!(b.nodes().len(), 2);
}

#[test]
fn full_bucket_reports_full_before_range() {
    // An out-of-range descriptor offered to a full bucket is refused as
    // BucketFull, not IncorrectBucket: the capacity check comes first.
    let mut b = Bucket::new(1, Id::new(0), Id::new(16));
    assert_eq!(b.add_node(remote(3)), Ok(()));
    assert_eq!(b.add_node(remote(99)), Err(BucketError::BucketFull));
}

#[test]
fn second_local_is_refused() {
    let mut b = Bucket::new(4, Id::new(0), Id::new(16));
    assert_eq!(b.add_node(local(3)), Ok(()));
    assert!(b.contains_local());
    assert_eq!(b.add_node(local(7)), Err(BucketError::RepeatedLNode));
    assert_eq!(b.nodes().len(), 1);
    // a remote descriptor is still welcome
    assert_eq!(b.add_node(remote(7)), Ok(()));
}

#[test]
fn contains_local_tracks_the_local_entry() {
    let mut b = Bucket::new(4, Id::new(0), Id::new(16));
    assert!(!b.contains_local());
    assert_eq!(b.add_node(remote(4)), Ok(()));
    assert!(!b.contains_local());
    assert_eq!(b.add_node(local(3)), Ok(()));
    assert!(b.contains_local());
    b.rm_node(Id::new(3));
    assert!(!b.contains_local());
}

#[test]
fn rm_node_removes_every_match() {
    let mut b = Bucket::new(4, Id::new(0), Id::new(16));
    // identical identifiers are tolerated as long as neither entry is local
    assert_eq!(b.add_node(remote(5)), Ok(()));
    assert_eq!(b.add_node(remote(7)), Ok(()));
    assert_eq!(b.add_node(remote(5)), Ok(()));
    b.rm_node(Id::new(5));
    assert_eq!(b.nodes().len(), 1);
    assert_eq!(b.nodes()[0].id(), Id::new(7));
}

#[test]
fn rm_node_absent_is_a_noop() {
    let mut b = Bucket::new(4, Id::new(0), Id::new(16));
    assert_eq!(b.add_node(remote(5)), Ok(()));
    assert_eq!(b.add_node(local(3)), Ok(()));
    let before: Vec<Node> = b.nodes().clone();
    b.rm_node(Id::new(9));
    assert_eq!(b.nodes(), &before);
}

#[test]
fn divide_splits_range_and_redistributes() {
    // capacity 3 so the two entries leave room for the split to proceed
    let mut b = Bucket::new(3, Id::new(0), Id::new(16));
    assert_eq!(b.add_node(local(3)), Ok(()));
    assert_eq!(b.add_node(remote(10)), Ok(()));
    let sibling = b.divide().expect("split should proceed");
    // lower half keeps the local descriptor with id 3
    assert!(b.fits(&Id::new(3)));
    assert!(!b.fits(&Id::new(9)));
    assert_eq!(b.nodes().len(), 1);
    assert_eq!(b.nodes()[0].id(), Id::new(3));
    assert!(b.nodes()[0].is_local());
    // upper half (9, 16) takes the remote descriptor with id 10
    assert!(sibling.fits(&Id::new(10)));
    assert!(!sibling.fits(&Id::new(9)));
    assert!(!sibling.fits(&Id::new(16)));
    assert_eq!(sibling.nodes().len(), 1);
    assert_eq!(sibling.nodes()[0].id(), Id::new(10));
    assert!(!sibling.nodes()[0].is_local());
}

#[test]
fn divide_at_capacity_is_refused() {
    let mut b = Bucket::new(2, Id::new(0), Id::new(16));
    assert_eq!(b.add_node(local(3)), Ok(()));
    assert_eq!(b.add_node(remote(10)), Ok(()));
    let before: Vec<Node> = b.nodes().clone();
    assert!(b.divide().is_none());
    assert_eq!(b.nodes(), &before);
    assert!(b.fits(&Id::new(15)));
}

#[test]
fn divide_without_local_is_refused() {
    let mut b = Bucket::new(4, Id::new(0), Id::new(16));
    assert_eq!(b.add_node(remote(10)), Ok(()));
    let before: Vec<Node> = b.nodes().clone();
    assert!(b.divide().is_none());
    assert_eq!(b.nodes(), &before);
}

#[test]
fn error_messages() {
    assert_eq!(BucketError::BucketFull.message(), "This bucket is full.");
    assert_eq!(BucketError::IncorrectBucket.message(), "The node does not fit.");
    assert_eq!(BucketError::RepeatedLNode.message(), "There already is a local node.");
    assert_eq!(BucketError::LNodeNotFound.message(), "Could not find the local node.");
    assert_eq!(BucketError::NodeNotFound.message(), "Could not find the node.");
    assert_eq!(BucketError::IndexError.message(), "Index is out of bounds.");
}
