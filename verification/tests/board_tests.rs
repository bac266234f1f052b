use board_placement::board::{Board, Boat, Error};

fn fresh(counts: [u8; 4]) -> Board {
    Board::new(&counts)
}

#[test]
fn bounds_span_past_far_edge_is_rejected() {
    let b = fresh([4, 3, 2, 1]);
    let r = b.add_boat(Boat::Horizontal(4), (0, 17));
    assert_eq!(r.err(), Some(Error::OutOfBounds));
}

#[test]
fn bounds_span_touching_far_edge_is_accepted() {
    let b = fresh([4, 3, 2, 1]);
    let r = b.add_boat(Boat::Horizontal(4), (0, 16));
    assert!(r.is_ok());
    let placed = r.unwrap();
    assert!(placed.occupancy(0, 16));
    assert!(placed.occupancy(0, 19));
    assert!(!placed.occupancy(0, 15));
}

#[test]
fn bounds_anchor_off_grid_is_rejected() {
    let b = fresh([4, 3, 2, 1]);
    assert_eq!(b.add_boat(Boat::Vertical(1), (20, 0)).err(), Some(Error::OutOfBounds));
    let b = fresh([4, 3, 2, 1]);
    assert_eq!(b.add_boat(Boat::Vertical(1), (0, 20)).err(), Some(Error::OutOfBounds));
}

#[test]
fn overlap_single_shared_cell_is_rejected() {
    let b = fresh([4, 3, 2, 1]);
    let b = b.add_boat(Boat::Horizontal(3), (0, 0)).unwrap();
    let b2 = b.clone();
    assert_eq!(b2.add_boat(Boat::Horizontal(2), (0, 2)).err(), Some(Error::Overlap));
    let placed = b.add_boat(Boat::Horizontal(2), (0, 3)).unwrap();
    assert!(placed.occupancy(0, 3));
    assert!(placed.occupancy(0, 4));
}

#[test]
fn inventory_exhaustion_is_rejected() {
    let b = fresh([1, 0, 0, 0]);
    let b2 = b.clone();
    assert_eq!(b2.add_boat(Boat::Horizontal(2), (0, 0)).err(), Some(Error::BoatCount));
    let b3 = b.clone();
    assert_eq!(b3.add_boat(Boat::Vertical(2), (5, 5)).err(), Some(Error::BoatCount));
    let b = b.add_boat(Boat::Vertical(1), (0, 0)).unwrap();
    assert_eq!(b.remaining(1), 0);
    assert_eq!(b.add_boat(Boat::Vertical(1), (1, 1)).err(), Some(Error::BoatCount));
}

#[test]
fn bounds_are_checked_before_inventory() {
    let b = fresh([0, 0, 0, 0]);
    assert_eq!(b.add_boat(Boat::Horizontal(4), (0, 17)).err(), Some(Error::OutOfBounds));
}

#[test]
fn inventory_is_checked_before_overlap() {
    let b = fresh([1, 1, 0, 0]);
    let b = b.add_boat(Boat::Horizontal(2), (0, 0)).unwrap();
    assert_eq!(b.add_boat(Boat::Horizontal(3), (0, 0)).err(), Some(Error::BoatCount));
}

#[test]
fn rejected_placement_changes_nothing() {
    let b = fresh([4, 3, 2, 1]);
    let b = b.add_boat(Boat::Vertical(3), (2, 2)).unwrap();
    let before = b.to_string();
    let attempt = b.clone();
    assert_eq!(attempt.add_boat(Boat::Horizontal(2), (3, 1)).err(), Some(Error::Overlap));
    assert_eq!(b.to_string(), before);
    assert_eq!(b.remaining(3), 1);
    assert!(b.occupancy(2, 2) && b.occupancy(3, 2) && b.occupancy(4, 2));
    assert!(!b.occupancy(3, 1));
}

#[test]
fn successful_placement_changes_exactly_the_span() {
    let b = fresh([4, 3, 2, 1]);
    let placed = b.add_boat(Boat::Vertical(2), (10, 7)).unwrap();
    for row in 0..20 {
        for col in 0..20 {
            let expected = (row == 10 || row == 11) && col == 7;
            assert_eq!(placed.occupancy(row, col), expected);
        }
    }
    assert_eq!(placed.remaining(1), 4);
    assert_eq!(placed.remaining(2), 2);
    assert_eq!(placed.remaining(3), 2);
    assert_eq!(placed.remaining(4), 1);
}

#[test]
fn error_messages_are_stable() {
    assert_eq!(Error::Overlap.to_string(), "Overlap Error");
    assert_eq!(Error::OutOfBounds.to_string(), "OutOfBound Error");
    assert_eq!(Error::BoatCount.to_string(), "BoatCount Error");
}

#[test]
fn encode_shape_is_counters_line_plus_rows() {
    let b = fresh([4, 3, 2, 1]);
    let s = b.to_string();
    let lines: Vec<&str> = s.split('\n').collect();
    assert_eq!(lines.len(), 22);
    assert_eq!(lines[0], "4 3 2 1");
    for row in 1..21 {
        assert_eq!(lines[row].len(), 20);
        assert!(lines[row].chars().all(|c| c == ' '));
    }
    assert_eq!(lines[21], "");
}

#[test]
fn end_to_end_scenario() {
    let b = fresh([4, 3, 2, 1]);
    let b = b.add_boat(Boat::Vertical(1), (0, 0)).unwrap();
    let s = b.to_string();
    let lines: Vec<&str> = s.split('\n').collect();
    assert_eq!(lines[0], "3 3 2 1");
    let row0: Vec<char> = lines[1].chars().collect();
    assert_eq!(row0.len(), 20);
    assert_eq!(row0[0], 'B');
    assert!(row0[1..].iter().all(|c| *c == ' '));
}

#[test]
fn round_trip_reproduces_the_board() {
    let b = fresh([9, 8, 7, 6]);
    let b = b.add_boat(Boat::Horizontal(4), (19, 16)).unwrap();
    let b = b.add_boat(Boat::Vertical(3), (0, 0)).unwrap();
    let s = b.to_string();
    let back = Board::from(s.clone());
    assert_eq!(back.to_string(), s);
    for row in 0..20 {
        for col in 0..20 {
            assert_eq!(back.occupancy(row, col), b.occupancy(row, col));
        }
    }
    for len in 1..5 {
        assert_eq!(back.remaining(len), b.remaining(len));
    }
}

#[test]
fn decode_is_permissive_about_row_characters() {
    let text = "0 0 0 0\nX B\n".to_string();
    let b = Board::decode(&text).unwrap();
    assert!(b.occupancy(0, 0));
    assert!(!b.occupancy(0, 1));
    assert!(b.occupancy(0, 2));
    assert!(!b.occupancy(0, 3));
    assert!(!b.occupancy(1, 0));
}

#[test]
fn decode_rejects_malformed_texts() {
    assert!(Board::decode("1 2 3\n").is_none());
    assert!(Board::decode("1 2 3 4 5\n").is_none());
    assert!(Board::decode("1 2 3 x\n").is_none());
    assert!(Board::decode("1 2 3 256\n").is_none());
    assert!(Board::decode("1 2  3 4\n").is_none());
    assert!(Board::decode("").is_none());
    let wide_row = format!("0 0 0 0\n{}\n", "B".repeat(21));
    assert!(Board::decode(&wide_row).is_none());
    let mut tall = String::from("0 0 0 0\n");
    for _ in 0..21 {
        tall.push_str("B\n");
    }
    assert!(Board::decode(&tall).is_none());
}

#[test]
fn decode_accepts_short_and_missing_rows() {
    let b = Board::decode("2 0 0 1\nBB\n\nB\n").unwrap();
    assert!(b.occupancy(0, 0) && b.occupancy(0, 1));
    assert!(!b.occupancy(1, 0));
    assert!(b.occupancy(2, 0));
    assert!(!b.occupancy(3, 0));
    assert_eq!(b.remaining(1), 2);
    assert_eq!(b.remaining(4), 1);
}

#[test]
fn new_board_is_empty_with_given_inventory() {
    let b = fresh([2, 2, 2, 2]);
    for len in 1..5 {
        assert_eq!(b.remaining(len), 2);
    }
    for row in 0..20 {
        for col in 0..20 {
            assert!(!b.occupancy(row, col));
        }
    }
}
