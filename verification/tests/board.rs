use boggle::board::Board;
use boggle::board::BoardError;
use boggle::board::Cell;
use boggle::board::DICE;

fn letters(s: &str) -> Vec<char> {
    s.chars().collect()
}

#[test]
fn cell_new_holds_its_fields() {
    let c = Cell::new(2, 3, 'Q');
    assert_eq!(c.x, 2);
    assert_eq!(c.y, 3);
    assert_eq!(c.contents, 'Q');
}

#[test]
fn from_letters_places_letters_row_major() {
    let b = Board::from_letters(&letters("ABCDEFGHIJKLMNOP")).unwrap();
    assert_eq!(b.slots[0][0].contents, 'A');
    assert_eq!(b.slots[0][3].contents, 'D');
    assert_eq!(b.slots[1][0].contents, 'E');
    assert_eq!(b.slots[3][3].contents, 'P');
    for y in 0..4 {
        for x in 0..4 {
            assert_eq!(b.slots[y][x].x, x);
            assert_eq!(b.slots[y][x].y, y);
        }
    }
}

#[test]
fn from_letters_rejects_wrong_count() {
    assert!(matches!(
        Board::from_letters(&letters("ABC")),
        Err(BoardError::WrongLetterCount)
    ));
    assert!(matches!(
        Board::from_letters(&letters("ABCDEFGHIJKLMNOPQ")),
        Err(BoardError::WrongLetterCount)
    ));
}

#[test]
fn rolled_board_is_laid_out_and_lettered() {
    let b = Board::new();
    for y in 0..4 {
        for x in 0..4 {
            assert_eq!(b.slots[y][x].x, x);
            assert_eq!(b.slots[y][x].y, y);
            assert!(DICE[y * 4 + x].contains(&b.slots[y][x].contents));
        }
    }
}

#[test]
fn interior_cell_has_eight_neighbors() {
    let b = Board::from_letters(&letters("ABCDEFGHIJKLMNOP")).unwrap();
    for &(x, y) in &[(1, 1), (2, 1), (1, 2), (2, 2)] {
        let c = b.slots[y][x];
        assert_eq!(b.neighbors(&c, &vec![]).len(), 8);
    }
}

#[test]
fn corner_cell_has_three_neighbors() {
    let b = Board::from_letters(&letters("ABCDEFGHIJKLMNOP")).unwrap();
    for &(x, y) in &[(0, 0), (3, 0), (0, 3), (3, 3)] {
        let c = b.slots[y][x];
        assert_eq!(b.neighbors(&c, &vec![]).len(), 3);
    }
}

#[test]
fn edge_cell_has_five_neighbors() {
    let b = Board::from_letters(&letters("ABCDEFGHIJKLMNOP")).unwrap();
    for &(x, y) in &[(1, 0), (0, 2), (3, 1), (2, 3)] {
        let c = b.slots[y][x];
        assert_eq!(b.neighbors(&c, &vec![]).len(), 5);
    }
}

#[test]
fn neighbors_come_in_fixed_compass_order() {
    let b = Board::from_letters(&letters("ABCDEFGHIJKLMNOP")).unwrap();
    let c = b.slots[1][1];
    let ns: Vec<char> = b.neighbors(&c, &vec![]).iter().map(|n| n.contents).collect();
    // E, SE, S, SW, W, NW, N, NE around the cell lettered F
    assert_eq!(ns, vec!['G', 'K', 'J', 'I', 'E', 'A', 'B', 'C']);
}

#[test]
fn neighbors_exclude_visited_and_self() {
    let b = Board::from_letters(&letters("ABCDEFGHIJKLMNOP")).unwrap();
    let c = b.slots[1][1];
    let visited = vec![b.slots[0][0], b.slots[1][2], c];
    let ns = b.neighbors(&c, &visited);
    assert_eq!(ns.len(), 6);
    for n in &ns {
        assert_ne!(*n, c);
        for v in &visited {
            assert_ne!(*n, *v);
        }
    }
}
