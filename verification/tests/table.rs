use alnum_cipher::alphabet::Txt;
use alnum_cipher::table::{
    create_table, pair_key, render_table, KEY_FIRST, KEY_LAST, PAIR_RADIX, TABLE_LEN,
};

#[test]
fn pair_key_is_text_times_radix_plus_key() {
    assert_eq!(PAIR_RADIX, 1_114_112);
    assert_eq!(pair_key('0', '!'), 48 * 1_114_112 + 33);
    assert_eq!(pair_key('z', '~'), 122 * 1_114_112 + 126);
}

#[test]
fn pair_key_tells_pairs_apart() {
    assert_ne!(pair_key('0', '1'), pair_key('1', '0'));
    assert_ne!(pair_key('a', ' '), pair_key('a', '!'));
    assert_ne!(pair_key('a', ' '), pair_key('b', ' '));
}

#[test]
fn tables_have_one_entry_per_pair() {
    let (forward, reverse) = create_table();
    assert_eq!(TABLE_LEN, 62 * 95);
    assert_eq!(forward.len(), 5890);
    assert_eq!(reverse.len(), 5890);
    for t in Txt::new().collect() {
        for k in KEY_FIRST..=KEY_LAST {
            assert!(forward.contains_key(&pair_key(t, k as char)));
            assert!(reverse.contains_key(&pair_key(t, k as char)));
        }
    }
}

#[test]
fn space_turns_nothing() {
    let (forward, reverse) = create_table();
    for t in Txt::new().collect() {
        assert_eq!(forward[&pair_key(t, ' ')], t);
        assert_eq!(reverse[&pair_key(t, ' ')], t);
    }
}

#[test]
fn forward_entries_follow_the_rotation() {
    let (forward, _) = create_table();
    assert_eq!(forward[&pair_key('0', '!')], '1');
    assert_eq!(forward[&pair_key('9', '!')], 'A');
    assert_eq!(forward[&pair_key('Z', '!')], 'a');
    assert_eq!(forward[&pair_key('z', '!')], '0');
    assert_eq!(forward[&pair_key('z', '~')], 'V');
    assert_eq!(forward[&pair_key('0', '^')], '0');
    assert_eq!(forward[&pair_key('H', 'k')], 'U');
}

#[test]
fn reverse_entries_follow_the_rotation_back() {
    let (_, reverse) = create_table();
    assert_eq!(reverse[&pair_key('1', '!')], '0');
    assert_eq!(reverse[&pair_key('0', '!')], 'z');
    assert_eq!(reverse[&pair_key('V', '~')], 'z');
    assert_eq!(reverse[&pair_key('0', '~')], 'U');
    assert_eq!(reverse[&pair_key('U', 'k')], 'H');
}

#[test]
fn forward_table_is_a_bijection_for_every_key_character() {
    let (forward, reverse) = create_table();
    let txt = Txt::new().collect();
    for k in KEY_FIRST..=KEY_LAST {
        let k = k as char;
        let mut hit = vec![false; 62];
        for &t in txt.iter() {
            let c = forward[&pair_key(t, k)];
            let place = txt.iter().position(|&x| x == c).unwrap();
            assert!(!hit[place]);
            hit[place] = true;
            assert_eq!(reverse[&pair_key(c, k)], t);
        }
        assert!(hit.iter().all(|&h| h));
        for &c in txt.iter() {
            let t = reverse[&pair_key(c, k)];
            assert_eq!(forward[&pair_key(t, k)], c);
        }
    }
}

#[test]
fn tables_are_the_same_on_every_build() {
    let (f1, r1) = create_table();
    let (f2, r2) = create_table();
    assert_eq!(f1, f2);
    assert_eq!(r1, r2);
}

#[test]
fn grid_has_a_heading_and_one_line_per_key_character() {
    let grid = render_table(&create_table().0);
    assert!(grid.ends_with('\n'));
    let lines: Vec<&str> = grid.lines().collect();
    assert_eq!(lines.len(), 96);
    assert_eq!(
        lines[0],
        "  0 1 2 3 4 5 6 7 8 9 A B C D E F G H I J K L M N O P Q R S T U V W X Y Z a b c d e f g h i j k l m n o p q r s t u v w x y z"
    );
    assert_eq!(
        lines[1],
        "  0 1 2 3 4 5 6 7 8 9 A B C D E F G H I J K L M N O P Q R S T U V W X Y Z a b c d e f g h i j k l m n o p q r s t u v w x y z "
    );
    assert_eq!(
        lines[2],
        "! 1 2 3 4 5 6 7 8 9 A B C D E F G H I J K L M N O P Q R S T U V W X Y Z a b c d e f g h i j k l m n o p q r s t u v w x y z 0 "
    );
    assert_eq!(
        lines[95],
        "~ W X Y Z a b c d e f g h i j k l m n o p q r s t u v w x y z 0 1 2 3 4 5 6 7 8 9 A B C D E F G H I J K L M N O P Q R S T U V "
    );
    assert_eq!(grid.chars().count(), 126 + 95 * 127);
}

#[test]
fn grid_cells_are_the_table_entries() {
    let (forward, _) = create_table();
    let grid = render_table(&forward);
    let txt = Txt::new().collect();
    for (row, line) in grid.lines().skip(1).enumerate() {
        let k = (KEY_FIRST + row as u8) as char;
        let cells: Vec<char> = line.chars().collect();
        assert_eq!(cells.len(), 126);
        assert_eq!(cells[0], k);
        assert_eq!(cells[1], ' ');
        for (col, &t) in txt.iter().enumerate() {
            assert_eq!(cells[2 + 2 * col], forward[&pair_key(t, k)]);
            assert_eq!(cells[3 + 2 * col], ' ');
        }
    }
}

#[test]
fn grid_of_the_reverse_table_shows_its_entries() {
    let (_, reverse) = create_table();
    let grid = render_table(&reverse);
    let lines: Vec<&str> = grid.lines().collect();
    assert_eq!(
        lines[2],
        "! z 0 1 2 3 4 5 6 7 8 9 A B C D E F G H I J K L M N O P Q R S T U V W X Y Z a b c d e f g h i j k l m n o p q r s t u v w x y "
    );
}
