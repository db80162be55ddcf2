use bdflib::error::BdfError;
use bdflib::pipeline::Sequencer;

#[test]
fn results_are_handed_on_in_the_order_of_their_tags() {
    let mut sequencer = Sequencer::new();
    let tags: Vec<u64> = (0..5).map(|_| sequencer.issue().unwrap()).collect();
    assert_eq!(tags, vec![0, 1, 2, 3, 4]);
    assert_eq!(sequencer.accept(2, vec![2, 2]), Ok(vec![]));
    assert_eq!(sequencer.accept(1, vec![1]), Ok(vec![]));
    assert_eq!(sequencer.accept(0, vec![0, 0, 0]), Ok(vec![0, 0, 0, 1, 2, 2]));
    assert_eq!(sequencer.accept(4, vec![4]), Ok(vec![]));
    assert_eq!(sequencer.accept(3, vec![]), Ok(vec![4]));
    assert_eq!(sequencer.issue(), Some(5));
    assert_eq!(sequencer.accept(5, vec![5]), Ok(vec![5]));
}

#[test]
fn a_tag_that_is_not_outstanding_is_refused() {
    let mut sequencer = Sequencer::new();
    assert_eq!(sequencer.accept(0, vec![1]), Err(BdfError::StateViolation));
    assert_eq!(sequencer.issue(), Some(0));
    assert_eq!(sequencer.issue(), Some(1));
    assert_eq!(sequencer.issue(), Some(2));
    assert_eq!(sequencer.accept(3, vec![1]), Err(BdfError::StateViolation));
    assert_eq!(sequencer.accept(2, vec![2]), Ok(vec![]));
    assert_eq!(sequencer.accept(2, vec![9]), Err(BdfError::StateViolation));
    assert_eq!(sequencer.accept(0, vec![0]), Ok(vec![0]));
    assert_eq!(sequencer.accept(0, vec![0]), Err(BdfError::StateViolation));
    assert_eq!(sequencer.accept(1, vec![1]), Ok(vec![1, 2]));
}

#[test]
fn any_order_of_arrival_gives_one_order_of_writing() {
    let orders: [[u64; 4]; 5] =
        [[0, 1, 2, 3], [3, 2, 1, 0], [1, 3, 0, 2], [2, 0, 3, 1], [3, 0, 1, 2]];
    for order in orders {
        let mut sequencer = Sequencer::new();
        for _ in 0..4 {
            sequencer.issue().unwrap();
        }
        let mut written = Vec::new();
        for tag in order {
            written.extend(sequencer.accept(tag, vec![tag as u8; tag as usize + 1]).unwrap());
        }
        assert_eq!(written, vec![0, 1, 1, 2, 2, 2, 3, 3, 3, 3]);
    }
}
