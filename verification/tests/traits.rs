use khel::traits::KeyboardPosition;

#[test]
fn columns_of_the_keyboard() {
    let rows = ["qwertyuiop", "asdfghjkl;", "zxcvbnm,./"];
    for row in rows {
        for (column, key) in row.chars().enumerate() {
            assert_eq!(key.column(), Some(column as u8), "{:?}", key);
        }
    }
}

#[test]
fn rows_of_the_keyboard() {
    let rows = [("qwertyuiop", 1), ("asdfghjkl;", 2), ("zxcvbnm,./", 4)];
    for (row, weight) in rows {
        for key in row.chars() {
            assert_eq!(key.row(), Some(weight as u8), "{:?}", key);
        }
    }
}

#[test]
fn keys_that_are_not_on_the_keyboard() {
    for key in ['1', 'Q', ' ', '-', '+', '@', '=', ':', 'ß', '\n'] {
        assert_eq!(key.column(), None, "{:?}", key);
        assert_eq!(key.row(), None, "{:?}", key);
    }
}
