use logic_core::piece::{get_piece_by_id, get_standard_pieces, verify_total_area};
use logic_core::{Color, Piece};

#[test]
fn test_standard_pieces_count() {
    let pieces = get_standard_pieces();
    assert_eq!(pieces.len(), 11);
}

#[test]
fn test_piece_ids() {
    let pieces = get_standard_pieces();
    for (idx, piece) in pieces.iter().enumerate() {
        assert_eq!(piece.id as usize, idx + 1);
    }
}

#[test]
fn test_total_area_is_64() {
    assert!(verify_total_area());
    let pieces = get_standard_pieces();
    let total: usize = pieces.iter().map(|p| p.area()).sum();
    assert_eq!(total, 64, "Total area should be 64 (8x8 board)");
}

#[test]
fn test_piece_colors() {
    let pieces = get_standard_pieces();

    assert_eq!(pieces[0].color, Color::Black1);
    assert_eq!(pieces[1].color, Color::Black2);
    assert_eq!(pieces[2].color, Color::Black3);

    assert_eq!(pieces[3].color, Color::Blue1);
    assert_eq!(pieces[4].color, Color::Blue2);

    assert_eq!(pieces[5].color, Color::Red1);
    assert_eq!(pieces[6].color, Color::Red2);

    assert_eq!(pieces[7].color, Color::Yellow1);
    assert_eq!(pieces[8].color, Color::Yellow2);

    assert_eq!(pieces[9].color, Color::Gray1);
    assert_eq!(pieces[10].color, Color::Gray2);
}

#[test]
fn test_color_families() {
    let pieces = get_standard_pieces();

    assert_eq!(pieces[0].color.family(), "黑色系");
    assert_eq!(pieces[1].color.family(), "黑色系");
    assert_eq!(pieces[2].color.family(), "黑色系");
    assert_eq!(pieces[3].color.family(), "蓝色系");
    assert_eq!(pieces[4].color.family(), "蓝色系");
}

#[test]
fn test_piece_rotation() {
    let mut piece = Piece::new(1, 2, 3, Color::Black1);
    assert_eq!(piece.width, 2);
    assert_eq!(piece.height, 3);
    assert!(!piece.rotated);

    piece.rotate();
    assert_eq!(piece.width, 3);
    assert_eq!(piece.height, 2);
    assert!(piece.rotated);

    piece.rotate();
    assert_eq!(piece.width, 2);
    assert_eq!(piece.height, 3);
    assert!(!piece.rotated);
}

#[test]
fn test_get_piece_by_id() {
    for id in 1..=11 {
        let piece = get_piece_by_id(id);
        assert!(piece.is_some());
        assert_eq!(piece.unwrap().id, id);
    }

    assert!(get_piece_by_id(0).is_none());
    assert!(get_piece_by_id(12).is_none());
}

#[test]
fn catalog_areas_are_as_listed() {
    let areas: Vec<usize> = get_standard_pieces().iter().map(|p| p.area()).collect();
    assert_eq!(areas, vec![1, 2, 3, 4, 5, 4, 6, 8, 10, 9, 12]);
    let sizes: Vec<(usize, usize)> =
        get_standard_pieces().iter().map(|p| (p.width, p.height)).collect();
    assert_eq!(
        sizes,
        vec![(1, 1), (1, 2), (1, 3), (1, 4), (1, 5), (2, 2), (2, 3), (2, 4), (2, 5), (3, 3), (3, 4)]
    );
}

#[test]
fn rotating_twice_restores_every_catalog_piece() {
    for original in get_standard_pieces() {
        let mut piece = original;
        piece.rotate();
        assert_eq!(piece.rotated, true);
        assert_eq!((piece.width, piece.height), (original.height, original.width));
        assert_eq!(piece.area(), original.area());
        piece.rotate();
        assert_eq!(piece, original);
        assert_eq!((piece.width, piece.height), (piece.original_width, piece.original_height));
        assert!(!piece.rotated);
    }
}

#[test]
fn rotating_a_square_changes_only_the_flag() {
    let mut square = get_piece_by_id(10).unwrap();
    assert_eq!((square.width, square.height), (3, 3));
    square.rotate();
    assert!(square.rotated);
    assert_eq!((square.width, square.height), (3, 3));
}

#[test]
fn reset_returns_to_the_original_orientation() {
    let mut piece = Piece::new(9, 2, 5, Color::Yellow2);
    piece.rotate();
    assert_eq!((piece.width, piece.height), (5, 2));
    piece.reset();
    assert_eq!(piece, Piece::new(9, 2, 5, Color::Yellow2));
    piece.reset();
    assert_eq!(piece, Piece::new(9, 2, 5, Color::Yellow2));
}

#[test]
fn pieces_by_id_are_fresh_copies_of_the_catalog() {
    assert_eq!(get_piece_by_id(7), Some(Piece::new(7, 2, 3, Color::Red2)));
    assert_eq!(get_piece_by_id(255), None);
    let mut first = get_standard_pieces();
    first[0].rotate();
    assert!(!get_standard_pieces()[0].rotated);
}

#[test]
fn colors_have_css_and_family() {
    assert_eq!(Color::Black1.to_css(), "#1a252f");
    assert_eq!(Color::Black2.to_css(), "#2c3e50");
    assert_eq!(Color::Black3.to_css(), "#34495e");
    assert_eq!(Color::Blue1.to_css(), "#2980b9");
    assert_eq!(Color::Blue2.to_css(), "#3498db");
    assert_eq!(Color::Red1.to_css(), "#c0392b");
    assert_eq!(Color::Red2.to_css(), "#e74c3c");
    assert_eq!(Color::Yellow1.to_css(), "#d68910");
    assert_eq!(Color::Yellow2.to_css(), "#f39c12");
    assert_eq!(Color::Gray1.to_css(), "#7f8c8d");
    assert_eq!(Color::Gray2.to_css(), "#95a5a6");
    assert_eq!(Color::Red1.family(), "红色系");
    assert_eq!(Color::Red2.family(), "红色系");
    assert_eq!(Color::Yellow1.family(), "黄色系");
    assert_eq!(Color::Yellow2.family(), "黄色系");
    assert_eq!(Color::Gray1.family(), "灰色系");
    assert_eq!(Color::Gray2.family(), "灰色系");
}
