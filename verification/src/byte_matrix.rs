//! A rectangular matrix of modules: 0 for light, 1 for dark, -1 for a
//! module not yet set.
use vstd::prelude::*;

verus! {

/// The text of one module: " 0", " 1", or two spaces when unset.
pub open spec fn module_text(v: i8) -> Seq<char> {
    if v == 0 {
        seq![' ', '0']
    } else if v == 1 {
        seq![' ', '1']
    } else {
        seq![' ', ' ']
    }
}

/// The text of the first `n` modules of row `y`.
pub open spec fn row_text(cells: Seq<i8>, width: int, y: int, n: int) -> Seq<char>
    decreases n,
{
    if n <= 0 {
        Seq::empty()
    } else {
        row_text(cells, width, y, n - 1) + module_text(cells[y * width + n - 1])
    }
}

/// The text of the first `rows` rows, each ended by a line feed.
pub open spec fn matrix_text(cells: Seq<i8>, width: int, rows: int) -> Seq<char>
    decreases rows,
{
    if rows <= 0 {
        Seq::empty()
    } else {
        matrix_text(cells, width, rows - 1) + row_text(cells, width, rows - 1, width) + seq!['\n']
    }
}

/// A matrix of `width` by `height` modules, row by row.
pub struct ByteMatrix {
    width: usize,
    height: usize,
    bytes: Vec<i8>,
}

impl ByteMatrix {
    #[verifier::type_invariant]
    spec fn shape(self) -> bool {
        &&& self.bytes@.len() == self.width * self.height
        &&& self.width * self.height <= usize::MAX
    }

    /// The number of columns.
    pub closed spec fn width_spec(self) -> int {
        self.width as int
    }

    /// The number of rows.
    pub closed spec fn height_spec(self) -> int {
        self.height as int
    }

    /// The modules, row by row.
    pub closed spec fn cells(self) -> Seq<i8> {
        self.bytes@
    }

    /// The module at `(x, y)`.
    pub open spec fn at(self, x: int, y: int) -> i8 {
        self.cells()[y * self.width_spec() + x]
    }

    /// A matrix of `width` by `height` light modules.
    pub fn new(width: usize, height: usize) -> (r: ByteMatrix)
        requires
            width * height <= usize::MAX,
        ensures
            r.width_spec() == width,
            r.height_spec() == height,
            r.cells() == Seq::new((width * height) as nat, |i: int| 0i8),
    {
        let n = width * height;
        let mut bytes: Vec<i8> = Vec::new();
        let mut i: usize = 0;
        while i < n
            invariant
                i <= n,
                bytes@ == Seq::new(i as nat, |k: int| 0i8),
            decreases n - i,
        {
            bytes.push(0);
            i = i + 1;
            assert(bytes@ =~= Seq::new(i as nat, |k: int| 0i8));
        }
        ByteMatrix { width, height, bytes }
    }

    /// A matrix of `width` by `height` modules holding `cells`, row by row.
    pub fn from_cells(width: usize, height: usize, cells: Vec<i8>) -> (r: ByteMatrix)
        requires
            cells@.len() == width * height,
            width * height <= usize::MAX,
        ensures
            r.width_spec() == width,
            r.height_spec() == height,
            r.cells() == cells@,
    {
        ByteMatrix { width, height, bytes: cells }
    }

    /// The number of columns.
    pub fn getWidth(&self) -> (r: usize)
        ensures
            r == self.width_spec(),
    {
        self.width
    }

    /// The number of rows.
    pub fn getHeight(&self) -> (r: usize)
        ensures
            r == self.height_spec(),
    {
        self.height
    }

    /// The number of modules.
    pub fn cell_count(&self) -> (r: usize)
        ensures
            r == self.cells().len(),
            r == self.width_spec() * self.height_spec(),
    {
        proof {
            use_type_invariant(self);
        }
        self.bytes.len()
    }

    /// The module at `(x, y)`.
    pub fn get(&self, x: usize, y: usize) -> (r: i8)
        requires
            x < self.width_spec(),
            y < self.height_spec(),
        ensures
            r == self.at(x as int, y as int),
    {
        proof {
            use_type_invariant(self);
            lemma_index_in_bounds(x as int, y as int, self.width as int, self.height as int);
        }
        self.bytes[y * self.width + x]
    }

    /// Sets the module at `(x, y)` to `value`.
    pub fn set(&mut self, x: usize, y: usize, value: i8)
        requires
            x < old(self).width_spec(),
            y < old(self).height_spec(),
        ensures
            final(self).width_spec() == old(self).width_spec(),
            final(self).height_spec() == old(self).height_spec(),
            final(self).cells() == old(self).cells().update(y * old(self).width_spec() + x, value),
        no_unwind
    {
        proof {
            use_type_invariant(&*self);
            lemma_index_in_bounds(x as int, y as int, self.width as int, self.height as int);
        }
        let i = y * self.width + x;
        self.bytes[i] = value;
    }

    /// The text form: each row on a line, each module as " 0", " 1" or two
    /// spaces when unset.
    pub fn to_string(&self) -> (r: String)
        ensures
            r@ == matrix_text(self.cells(), self.width_spec(), self.height_spec()),
    {
        proof {
            use_type_invariant(self);
            reveal_strlit(" 0");
            reveal_strlit(" 1");
            reveal_strlit("  ");
            reveal_strlit("\n");
        }
        let mut out = String::new();
        let mut y: usize = 0;
        while y < self.height
            invariant
                self.bytes@.len() == self.width * self.height,
                self.width * self.height <= usize::MAX,
                y <= self.height,
                out@ == matrix_text(self.bytes@, self.width as int, y as int),
            decreases self.height - y,
        {
            let ghost before = out@;
            let mut x: usize = 0;
            while x < self.width
                invariant
                    self.bytes@.len() == self.width * self.height,
                    self.width * self.height <= usize::MAX,
                    y < self.height,
                    x <= self.width,
                    out@ == before + row_text(self.bytes@, self.width as int, y as int, x as int),
                decreases self.width - x,
            {
                proof {
                    lemma_index_in_bounds(x as int, y as int, self.width as int, self.height as int);
                    reveal_strlit(" 0");
                    reveal_strlit(" 1");
                    reveal_strlit("  ");
                }
                let v = self.bytes[y * self.width + x];
                if v == 0 {
                    out.append(" 0");
                } else if v == 1 {
                    out.append(" 1");
                } else {
                    out.append("  ");
                }
                x = x + 1;
            }
            proof {
                reveal_strlit("\n");
            }
            out.append("\n");
            y = y + 1;
        }
        out
    }
}

/// A cell `(x, y)` of a `w` by `h` matrix has its index `y * w + x` inside it.
pub proof fn lemma_index_in_bounds(x: int, y: int, w: int, h: int)
    requires
        0 <= x < w,
        0 <= y < h,
    ensures
        0 <= y * w + x < w * h,
{
    assert(0 <= y * w + x < w * h) by (nonlinear_arith)
        requires
            0 <= x < w,
            0 <= y < h,
    {
        assert(y * w + x < y * w + w);
        assert(y * w + w == (y + 1) * w);
        assert((y + 1) * w <= h * w);
    }
}

} // verus!
