//! A square matrix of booleans.
use vstd::prelude::*;

verus! {

/// A square matrix of booleans, stored row by row.
#[derive(PartialEq, Debug)]
pub struct QuadMatrixBool {
    data: Vec<Vec<bool>>,
}

/// Error returned by [`QuadMatrixBool::new`] when the rows are not as long as
/// there are rows.
#[derive(PartialEq, Eq, Debug, Structural)]
pub struct NotQuadError;

/// Every row of `m` is as long as `m` has rows.
pub open spec fn square(m: Seq<Seq<bool>>) -> bool {
    forall|r: int| 0 <= r < m.len() ==> (#[trigger] m[r]).len() == m.len()
}

impl View for QuadMatrixBool {
    type V = Seq<Seq<bool>>;

    closed spec fn view(&self) -> Seq<Seq<bool>> {
        self.data@.map_values(|row: Vec<bool>| row@)
    }
}

impl QuadMatrixBool {
    /// The matrix is square.
    pub open spec fn wf(&self) -> bool {
        square(self@)
    }

    /// The `n` by `n` matrix of `false`.
    pub fn new_epmty(n: usize) -> (m: QuadMatrixBool)
        ensures
            m.wf(),
            m@.len() == n,
            forall|i: int, j: int| 0 <= i < n && 0 <= j < n ==> !#[trigger] m@[i][j],
    {
        let mut data: Vec<Vec<bool>> = Vec::new();
        let mut i: usize = 0;
        while i < n
            invariant
                i <= n,
                data@.len() == i,
                forall|k: int| 0 <= k < i ==> (#[trigger] data@[k])@.len() == n,
                forall|k: int, j: int| 0 <= k < i && 0 <= j < n ==> !#[trigger] data@[k]@[j],
            decreases n - i,
        {
            let mut row: Vec<bool> = Vec::new();
            let mut j: usize = 0;
            while j < n
                invariant
                    j <= n,
                    row@.len() == j,
                    forall|q: int| 0 <= q < j ==> !#[trigger] row@[q],
                decreases n - j,
            {
                row.push(false);
                j = j + 1;
            }
            data.push(row);
            i = i + 1;
        }
        QuadMatrixBool { data }
    }

    /// The matrix with the rows `data`, if they are square.
    pub fn new(data: Vec<Vec<bool>>) -> (r: Result<QuadMatrixBool, NotQuadError>)
        ensures
            r is Ok <==> square(data@.map_values(|row: Vec<bool>| row@)),
            r matches Ok(m) ==> m@ == data@.map_values(|row: Vec<bool>| row@),
    {
        let ghost m = data@.map_values(|row: Vec<bool>| row@);
        let n = data.len();
        let mut r: usize = 0;
        while r < n
            invariant
                n == data@.len(),
                m == data@.map_values(|row: Vec<bool>| row@),
                r <= n,
                forall|q: int| 0 <= q < r ==> (#[trigger] m[q]).len() == n,
            decreases n - r,
        {
            if data[r].len() != n {
                assert(m[r as int].len() != m.len());
                return Err(NotQuadError);
            }
            r = r + 1;
        }
        Ok(QuadMatrixBool { data })
    }

    /// The number of rows.
    pub fn size(&self) -> (r: usize)
        ensures
            r == self@.len(),
    {
        self.data.len()
    }

    /// The entry in row `i.0` and column `i.1`.
    pub fn get(&self, i: &(usize, usize)) -> (r: bool)
        requires
            self.wf(),
            i.0 < self@.len(),
            i.1 < self@.len(),
        ensures
            r == self@[i.0 as int][i.1 as int],
    {
        assert(self@[i.0 as int].len() == self@.len());
        assert(self.data@[i.0 as int]@ == self@[i.0 as int]);
        self.data[i.0][i.1]
    }

    /// Sets the entry in row `i.0` and column `i.1` to `element`.
    pub fn set(&mut self, i: &(usize, usize), element: bool)
        requires
            old(self).wf(),
            i.0 < old(self)@.len(),
            i.1 < old(self)@.len(),
        ensures
            final(self).wf(),
            final(self)@ == old(self)@.update(i.0 as int, old(self)@[i.0 as int].update(i.1 as int, element)),
    {
        let ghost before = self@;
        let mut row: Vec<bool> = Vec::new();
        assert(before[i.0 as int].len() == before.len());
        self.data.set_and_swap(i.0, &mut row);
        assert(row@ == before[i.0 as int]);
        row.set(i.1, element);
        self.data.set_and_swap(i.0, &mut row);
        assert(self@ =~~= before.update(i.0 as int, before[i.0 as int].update(i.1 as int, element)));
    }
}

} // verus!
