use itc::{decode, encode, DecodeError, EventTree, IdTree, Stamp};

fn text(stamp: &Stamp) -> String {
    String::from_utf8(encode(stamp)).unwrap()
}

#[test]
fn empty() {
    let stamp = Stamp::seed();
    let serialized = text(&stamp);
    assert_eq!(serialized, "{\"id\":1,\"event\":0}");
    let new_stamp: Stamp = decode(serialized.as_bytes()).unwrap();
    assert_eq!(stamp, new_stamp);
}

#[test]
fn complex() {
    let stamp = Stamp::new(
        IdTree::node(
            Box::new(IdTree::node(
                Box::new(IdTree::one()),
                Box::new(IdTree::zero()),
            )),
            Box::new(IdTree::zero()),
        ),
        EventTree::node(
            0,
            Box::new(EventTree::node(
                1,
                Box::new(EventTree::leaf(1)),
                Box::new(EventTree::zero()),
            )),
            Box::new(EventTree::zero()),
        ),
    );
    let serialized = text(&stamp);
    assert_eq!(serialized, "{\"id\":[[1,0],0],\"event\":[[1,1,0],0,0]}");
    let new_stamp: Stamp = decode(serialized.as_bytes()).unwrap();
    assert_eq!(stamp, new_stamp);
}

#[test]
fn encodes_counts_in_decimal() {
    let stamp = Stamp::new(
        IdTree::zero(),
        EventTree::node(
            10,
            Box::new(EventTree::leaf(4294967295)),
            Box::new(EventTree::leaf(1203)),
        ),
    );
    assert_eq!(text(&stamp), "{\"id\":0,\"event\":[4294967295,10,1203]}");
}

#[test]
fn decodes_the_greatest_count() {
    let stamp = decode(b"{\"id\":0,\"event\":4294967295}").unwrap();
    assert_eq!(stamp, Stamp::new(IdTree::zero(), EventTree::leaf(u32::MAX)));
}

#[test]
fn decodes_nested_trees() {
    let stamp = decode(b"{\"id\":[0,[1,0]],\"event\":[7,2,[0,3,12]]}").unwrap();
    let expected = Stamp::new(
        IdTree::node(
            Box::new(IdTree::zero()),
            Box::new(IdTree::node(Box::new(IdTree::one()), Box::new(IdTree::zero()))),
        ),
        EventTree::node(
            2,
            Box::new(EventTree::leaf(7)),
            Box::new(EventTree::node(
                3,
                Box::new(EventTree::zero()),
                Box::new(EventTree::leaf(12)),
            )),
        ),
    );
    assert_eq!(stamp, expected);
}

#[test]
fn rejects_truncated_text() {
    assert_eq!(decode(b""), Err(DecodeError::Truncated));
    assert_eq!(decode(b"{\"id"), Err(DecodeError::Truncated));
    assert_eq!(decode(b"{\"id\":"), Err(DecodeError::Truncated));
    assert_eq!(decode(b"{\"id\":[1,0"), Err(DecodeError::Truncated));
    assert_eq!(decode(b"{\"id\":1"), Err(DecodeError::Truncated));
    assert_eq!(decode(b"{\"id\":1,\"ev"), Err(DecodeError::Truncated));
    assert_eq!(decode(b"{\"id\":1,\"event\":"), Err(DecodeError::Truncated));
    assert_eq!(decode(b"{\"id\":1,\"event\":[0,1,"), Err(DecodeError::Truncated));
    assert_eq!(decode(b"{\"id\":1,\"event\":0"), Err(DecodeError::Truncated));
}

#[test]
fn rejects_trailing_text() {
    assert_eq!(decode(b"{\"id\":1,\"event\":0}}"), Err(DecodeError::Trailing));
    assert_eq!(decode(b"{\"id\":1,\"event\":0} "), Err(DecodeError::Trailing));
    assert_eq!(
        decode(b"{\"id\":1,\"event\":0}{\"id\":1,\"event\":0}"),
        Err(DecodeError::Trailing)
    );
}

#[test]
fn rejects_malformed_text() {
    assert_eq!(decode(b"[1,0]"), Err(DecodeError::Malformed));
    assert_eq!(decode(b"{\"di\":1,\"event\":0}"), Err(DecodeError::Malformed));
    assert_eq!(decode(b"{\"id\": 1,\"event\":0}"), Err(DecodeError::Malformed));
    assert_eq!(decode(b"{\"id\":true,\"event\":0}"), Err(DecodeError::Malformed));
    assert_eq!(decode(b"{\"id\":[1;0],\"event\":0}"), Err(DecodeError::Malformed));
    assert_eq!(decode(b"{\"id\":[1,0),\"event\":0}"), Err(DecodeError::Malformed));
    assert_eq!(decode(b"{\"id\":1;\"event\":0}"), Err(DecodeError::Malformed));
    assert_eq!(decode(b"{\"id\":1,\"event\":x}"), Err(DecodeError::Malformed));
    assert_eq!(decode(b"{\"id\":1,\"event\":01}"), Err(DecodeError::Malformed));
    assert_eq!(decode(b"{\"id\":1,\"event\":[0,[0,0,0],0]}"), Err(DecodeError::Malformed));
    assert_eq!(decode(b"{\"id\":1,\"event\":[0 ,1,0]}"), Err(DecodeError::Malformed));
    assert_eq!(decode(b"{\"id\":1,\"event\":0]"), Err(DecodeError::Malformed));
}

#[test]
fn rejects_invalid_leaf_markers() {
    assert_eq!(decode(b"{\"id\":2,\"event\":0}"), Err(DecodeError::InvalidLeaf));
    assert_eq!(decode(b"{\"id\":9,\"event\":0}"), Err(DecodeError::InvalidLeaf));
    assert_eq!(decode(b"{\"id\":10,\"event\":0}"), Err(DecodeError::InvalidLeaf));
    assert_eq!(decode(b"{\"id\":01,\"event\":0}"), Err(DecodeError::InvalidLeaf));
    assert_eq!(decode(b"{\"id\":-1,\"event\":0}"), Err(DecodeError::InvalidLeaf));
    assert_eq!(decode(b"{\"id\":[1,3],\"event\":0}"), Err(DecodeError::InvalidLeaf));
}

#[test]
fn rejects_wrong_arity() {
    assert_eq!(decode(b"{\"id\":[],\"event\":0}"), Err(DecodeError::Arity));
    assert_eq!(decode(b"{\"id\":[1],\"event\":0}"), Err(DecodeError::Arity));
    assert_eq!(decode(b"{\"id\":[1,0,1],\"event\":0}"), Err(DecodeError::Arity));
    assert_eq!(decode(b"{\"id\":1,\"event\":[]}"), Err(DecodeError::Arity));
    assert_eq!(decode(b"{\"id\":1,\"event\":[0]}"), Err(DecodeError::Arity));
    assert_eq!(decode(b"{\"id\":1,\"event\":[0,1]}"), Err(DecodeError::Arity));
    assert_eq!(decode(b"{\"id\":1,\"event\":[0,1,0,1]}"), Err(DecodeError::Arity));
}

#[test]
fn rejects_negative_counts() {
    assert_eq!(decode(b"{\"id\":1,\"event\":-1}"), Err(DecodeError::NegativeCount));
    assert_eq!(decode(b"{\"id\":1,\"event\":[0,-2,0]}"), Err(DecodeError::NegativeCount));
    assert_eq!(decode(b"{\"id\":1,\"event\":[0,2,-0]}"), Err(DecodeError::NegativeCount));
}

#[test]
fn rejects_counts_beyond_u32() {
    assert_eq!(decode(b"{\"id\":1,\"event\":4294967296}"), Err(DecodeError::CountTooLarge));
    assert_eq!(
        decode(b"{\"id\":1,\"event\":[0,99999999999999999999999999,0]}"),
        Err(DecodeError::CountTooLarge)
    );
}

struct Dice {
    state: u64,
}

impl Dice {
    fn roll(&mut self, sides: u64) -> u64 {
        self.state = self
            .state
            .wrapping_mul(6364136223846793005)
            .wrapping_add(1442695040888963407);
        (self.state >> 33) % sides
    }
}

fn some_id(dice: &mut Dice, depth: u32) -> IdTree {
    if depth == 0 || dice.roll(3) == 0 {
        IdTree::leaf(dice.roll(2) == 1)
    } else {
        let left = some_id(dice, depth - 1);
        let right = some_id(dice, depth - 1);
        IdTree::node(Box::new(left), Box::new(right))
    }
}

fn some_event(dice: &mut Dice, depth: u32) -> EventTree {
    let n = match dice.roll(4) {
        0 => 0,
        1 => dice.roll(10) as u32,
        2 => dice.roll(100000) as u32,
        _ => u32::MAX - dice.roll(3) as u32,
    };
    if depth == 0 || dice.roll(3) == 0 {
        EventTree::leaf(n)
    } else {
        let left = some_event(dice, depth - 1);
        let right = some_event(dice, depth - 1);
        EventTree::node(n, Box::new(left), Box::new(right))
    }
}

#[test]
fn round_trip_of_generated_trees() {
    let mut dice = Dice { state: 2008 };
    for _ in 0..300 {
        let stamp = Stamp::new(some_id(&mut dice, 6), some_event(&mut dice, 6));
        let encoded = encode(&stamp);
        assert_eq!(decode(&encoded), Ok(stamp.clone()));
        let again = decode(&encoded).unwrap();
        assert_eq!(encode(&again), encoded);
    }
}

#[test]
fn round_trip_keeps_the_canonical_form() {
    let stamp = Stamp::new(
        IdTree::node(Box::new(IdTree::one()), Box::new(IdTree::zero())),
        EventTree::node(1, Box::new(EventTree::leaf(2)), Box::new(EventTree::zero())),
    );
    let decoded = decode(&encode(&stamp)).unwrap();
    assert!(decoded.id_tree().is_canonical());
    assert_eq!(decoded.id_tree(), stamp.id_tree());
    assert_eq!(decoded.event_tree(), stamp.event_tree());
}
