use lib::games::{select_id, COUNT, DUMPTRUCK_ID, SNAKE_ID};

#[test]
fn select_falls_back_to_the_first_game() {
    assert_eq!(COUNT, 2);
    assert_eq!(select_id(SNAKE_ID), 0);
    assert_eq!(select_id(DUMPTRUCK_ID), 1);
    assert_eq!(select_id(2), 0);
    assert_eq!(select_id(u32::MAX), 0);
}
