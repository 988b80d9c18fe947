//! Where a character sits on the keyboard.

use vstd::prelude::*;

verus! {

/// The keys of the upper letter row, from left to right.
pub open spec fn top_row() -> Seq<char> {
    seq!['q', 'w', 'e', 'r', 't', 'y', 'u', 'i', 'o', 'p']
}

/// The keys of the middle letter row, from left to right.
pub open spec fn home_row() -> Seq<char> {
    seq!['a', 's', 'd', 'f', 'g', 'h', 'j', 'k', 'l', ';']
}

/// The keys of the lower letter row, from left to right.
pub open spec fn bottom_row() -> Seq<char> {
    seq!['z', 'x', 'c', 'v', 'b', 'n', 'm', ',', '.', '/']
}

/// The column of a key: its place in its row, counted from zero. A character
/// that is on none of the three rows has no column.
pub open spec fn key_column(c: char) -> Option<u8> {
    if exists|k: int| 0 <= k < 10 && on_column(c, k) {
        Some((choose|k: int| 0 <= k < 10 && on_column(c, k)) as u8)
    } else {
        None
    }
}

/// Whether `c` is one of the three keys of column `k`.
pub open spec fn on_column(c: char, k: int) -> bool {
    top_row()[k] == c || home_row()[k] == c || bottom_row()[k] == c
}

/// The weight of the row of a key: 1 for the upper row, 2 for the middle row
/// and 4 for the lower row. A character on none of them has no row.
pub open spec fn key_row(c: char) -> Option<u8> {
    if top_row().contains(c) {
        Some(1)
    } else if home_row().contains(c) {
        Some(2)
    } else if bottom_row().contains(c) {
        Some(4)
    } else {
        None
    }
}

/// A position on the keyboard.
pub trait KeyboardPosition {
    /// The column that `column` returns.
    spec fn column_of(&self) -> Option<u8>;

    /// The row weight that `row` returns.
    spec fn row_of(&self) -> Option<u8>;

    /// The column on the keyboard.
    fn column(&self) -> (r: Option<u8>)
        ensures
            r == self.column_of(),
    ;

    /// The row on the keyboard, as a weight.
    fn row(&self) -> (r: Option<u8>)
        ensures
            r == self.row_of(),
    ;
}

impl KeyboardPosition for char {
    open spec fn column_of(&self) -> Option<u8> {
        key_column(*self)
    }

    open spec fn row_of(&self) -> Option<u8> {
        key_row(*self)
    }

    fn column(&self) -> (r: Option<u8>) {
        let r = match *self {
            'q' | 'a' | 'z' => Some(0u8),
            'w' | 's' | 'x' => Some(1u8),
            'e' | 'd' | 'c' => Some(2u8),
            'r' | 'f' | 'v' => Some(3u8),
            't' | 'g' | 'b' => Some(4u8),
            'y' | 'h' | 'n' => Some(5u8),
            'u' | 'j' | 'm' => Some(6u8),
            'i' | 'k' | ',' => Some(7u8),
            'o' | 'l' | '.' => Some(8u8),
            'p' | ';' | '/' => Some(9u8),
            _ => None,
        };
        proof {
            let c = *self;
            match r {
                Some(k) => {
                    assert(on_column(c, k as int));
                    assert forall|j: int| 0 <= j < 10 && on_column(c, j) implies j == k by {}
                },
                None => {
                    assert forall|j: int| 0 <= j < 10 implies !on_column(c, j) by {}
                },
            }
        }
        r
    }

    fn row(&self) -> (r: Option<u8>) {
        let r = match *self {
            'q' | 'w' | 'e' | 'r' | 't' | 'y' | 'u' | 'i' | 'o' | 'p' => Some(1u8),
            'a' | 's' | 'd' | 'f' | 'g' | 'h' | 'j' | 'k' | 'l' | ';' => Some(2u8),
            'z' | 'x' | 'c' | 'v' | 'b' | 'n' | 'm' | ',' | '.' | '/' => Some(4u8),
            _ => None,
        };
        proof {
            let c = *self;
            if r == Some(1u8) {
                let k = choose|k: int| 0 <= k < 10 && top_row()[k] == c;
                assert(top_row()[k] == c);
            }
            if r == Some(2u8) {
                let k = choose|k: int| 0 <= k < 10 && home_row()[k] == c;
                assert(home_row()[k] == c);
            }
            if r == Some(4u8) {
                let k = choose|k: int| 0 <= k < 10 && bottom_row()[k] == c;
                assert(bottom_row()[k] == c);
            }
        }
        r
    }
}

/// The key of weight `row` in column `k`.
pub open spec fn key_at(row: int, k: int) -> char {
    if row == 1 {
        top_row()[k]
    } else if row == 2 {
        home_row()[k]
    } else {
        bottom_row()[k]
    }
}

/// A key with a column is one of the three keys of that column, and its row
/// tells which.
pub proof fn lemma_key_of_column(c: char, k: u8)
    requires
        key_column(c) == Some(k),
    ensures
        k < 10,
        key_row(c) == Some(1u8) || key_row(c) == Some(2u8) || key_row(c) == Some(4u8),
        c == key_at(key_row(c).unwrap() as int, k as int),
{
    let j = choose|j: int| 0 <= j < 10 && on_column(c, j);
    assert(0 <= j < 10 && on_column(c, j));
    assert(k == j as u8);
    if top_row()[j] == c {
        assert(top_row().contains(c));
    } else if home_row()[j] == c {
        assert(home_row().contains(c));
        assert forall|i: int| 0 <= i < 10 implies top_row()[i] != c by {}
    } else {
        assert(bottom_row()[j] == c);
        assert(bottom_row().contains(c));
        assert forall|i: int| 0 <= i < 10 implies top_row()[i] != c by {}
        assert forall|i: int| 0 <= i < 10 implies home_row()[i] != c by {}
    }
}

} // verus!
