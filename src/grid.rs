use vstd::prelude::*;

verus! {

/// A cell of a two-dimensional grid, as (row, column).
#[derive(Clone, Copy, PartialEq, Eq, Hash)]
pub struct Position {
    pos: (usize, usize),
}

impl View for Position {
    type V = (usize, usize);

    closed spec fn view(&self) -> (usize, usize) {
        self.pos
    }
}

/// Whether `(row, col)` names a cell of `grid`.
pub open spec fn in_grid<T>(grid: Seq<Vec<T>>, row: int, col: int) -> bool {
    0 <= row < grid.len() && 0 <= col < grid[row]@.len()
}

impl Position {
    pub fn new(pos: (usize, usize)) -> (r: Self)
        ensures
            r@ == pos,
    {
        Position { pos }
    }

    /// The same cell with rows and columns counted from zero instead of one.
    pub fn to_zero_origin(self) -> (r: Self)
        requires
            self@.0 >= 1,
            self@.1 >= 1,
        ensures
            r@ == ((self@.0 - 1) as usize, (self@.1 - 1) as usize),
    {
        let pos = (self.pos.0 - 1, self.pos.1 - 1);
        Position { pos }
    }

    /// The cell one step of `direction` away, if it lies inside a grid of
    /// `size` rows and columns.
    pub fn go(self, direction: (isize, isize), size: (usize, usize)) -> (r: Option<Self>)
        ensures
            ({
                let row = self@.0 + direction.0;
                let col = self@.1 + direction.1;
                if 0 <= row < size.0 && 0 <= col < size.1 {
                    r is Some && r->0@ == (row as usize, col as usize)
                } else {
                    r is None
                }
            }),
    {
        let (a, b) = self.pos;
        let (da, db) = direction;
        let next = (a.checked_add_signed(da), b.checked_add_signed(db));
        if let (Some(na), Some(nb)) = next {
            if na < size.0 && nb < size.1 {
                let pos = (na, nb);
                return Some(Position { pos });
            }
        }
        return None;
    }

    /// The character at this cell of `grid`.
    pub fn char_at(self, grid: &Vec<Vec<char>>) -> (r: char)
        requires
            in_grid(grid@, self@.0 as int, self@.1 as int),
        ensures
            r == grid@[self@.0 as int]@[self@.1 as int],
    {
        grid[self.pos.0][self.pos.1]
    }

    /// Whether this cell of `grid` is open floor (`.`).
    pub fn is_space_in(self, grid: &Vec<Vec<char>>) -> (r: bool)
        requires
            in_grid(grid@, self@.0 as int, self@.1 as int),
        ensures
            r == (grid@[self@.0 as int]@[self@.1 as int] == '.'),
    {
        self.char_at(grid) == '.'
    }

    /// Whether this cell of `grid` is a wall (`#`).
    pub fn is_wall_in(self, grid: &Vec<Vec<char>>) -> (r: bool)
        requires
            in_grid(grid@, self@.0 as int, self@.1 as int),
        ensures
            r == (grid@[self@.0 as int]@[self@.1 as int] == '#'),
    {
        self.char_at(grid) == '#'
    }

    /// Whether this cell is marked in `visited`.
    pub fn is_already(self, visited: &Vec<Vec<bool>>) -> (r: bool)
        requires
            in_grid(visited@, self@.0 as int, self@.1 as int),
        ensures
            r == visited@[self@.0 as int]@[self@.1 as int],
    {
        visited[self.pos.0][self.pos.1]
    }

    /// Marks this cell in `visited`, leaving every other cell as it was.
    pub fn mark_as(self, visited: &mut Vec<Vec<bool>>)
        requires
            in_grid(old(visited)@, self@.0 as int, self@.1 as int),
        ensures
            final(visited)@.len() == old(visited)@.len(),
            forall|i: int|
                0 <= i < old(visited)@.len() && i != self@.0 ==> #[trigger] final(visited)@[i]
                    == old(visited)@[i],
            final(visited)@[self@.0 as int]@ == old(visited)@[self@.0 as int]@.update(
                self@.1 as int,
                true,
            ),
    {
        let (a, b) = self.pos;
        let mut row: Vec<bool> = Vec::new();
        let n = visited[a].len();
        let mut j: usize = 0;
        while j < n
            invariant
                a < visited@.len(),
                visited@ == old(visited)@,
                n == visited@[a as int]@.len(),
                j <= n,
                row@.len() == j,
                forall|k: int| 0 <= k < j ==> row@[k] == visited@[a as int]@[k],
            decreases n - j,
        {
            row.push(visited[a][j]);
            j = j + 1;
        }
        row.set(b, true);
        visited.set(a, row);
        proof {
            assert(visited@[a as int]@ =~= old(visited)@[a as int]@.update(b as int, true));
        }
    }
}

} // verus!
