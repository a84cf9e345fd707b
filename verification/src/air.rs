//! Execution traces and their algebraic descriptions: transition, single row
//! and boundary constraints, and permutation arguments.
use vstd::prelude::*;
use crate::field::{Felt, p, fadd, fsub, fmul, fpow, finv};
use crate::field_ext::{Fp3, ext_add, ext_sub, ext_mul, ext_scale, ext_adjugate, ext_norm};
use vstd::arithmetic::power2::pow2;
use crate::util::{is_pow2, log2, two_pow, lemma_pow2_log2};

verus! {

broadcast use Felt::lemma_val_injective, Fp3::lemma_val_injective;

/// A table of field cells, one column per traced value and one row per step.
pub struct TraceTable {
    width: usize,
    length: usize,
    cells: Vec<Felt>,
}

impl TraceTable {
    #[verifier::type_invariant]
    spec fn shaped(self) -> bool {
        &&& self.width >= 1
        &&& is_pow2(self.length as nat)
        &&& self.cells@.len() == self.width * self.length
        &&& self.width * self.length <= usize::MAX
    }

    pub closed spec fn spec_width(&self) -> nat {
        self.width as nat
    }

    pub closed spec fn spec_length(&self) -> nat {
        self.length as nat
    }

    /// A table's width is a machine word.
    pub broadcast proof fn lemma_width_fits(t: &TraceTable)
        ensures
            #[trigger] t.spec_width() <= usize::MAX,
    {
    }

    /// A table's length is a machine word.
    pub broadcast proof fn lemma_length_fits(t: &TraceTable)
        ensures
            #[trigger] t.spec_length() <= usize::MAX,
    {
    }

    /// The cell at a column and row.
    pub closed spec fn cell(&self, column: int, row: int) -> Felt {
        self.cells@[column * self.length + row]
    }

    /// The cells of a row, column by column.
    pub open spec fn spec_row(&self, row: int) -> Seq<Felt> {
        Seq::new(self.spec_width(), |c: int| self.cell(c, row))
    }

    /// A fresh table of zeros. The length must be a power of two.
    pub fn new(width: usize, length: usize) -> (t: TraceTable)
        requires
            width >= 1,
            is_pow2(length as nat),
            width * length <= usize::MAX,
        ensures
            t.spec_width() == width,
            t.spec_length() == length,
            forall|c: int, r: int| 0 <= c < width && 0 <= r < length ==> (#[trigger] t.cell(c, r)).val() == 0,
    {
        let total = width * length;
        let cells: Vec<Felt> = vec![Felt::zero(); total];
        let t = TraceTable { width, length, cells };
        proof {
            assert forall|c: int, r: int| 0 <= c < width && 0 <= r < length implies (#[trigger] t.cell(c, r)).val() == 0 by {
                lemma_index_in_range(c, r, width as int, length as int);
            }
        }
        t
    }

    pub fn width(&self) -> (r: usize)
        ensures
            r == self.spec_width(),
            r >= 1,
    {
        proof {
            use_type_invariant(self);
        }
        self.width
    }

    pub fn length(&self) -> (r: usize)
        ensures
            r == self.spec_length(),
            is_pow2(r as nat),
    {
        proof {
            use_type_invariant(self);
        }
        self.length
    }

    pub fn set(&mut self, column: usize, row: usize, value: Felt)
        requires
            column < old(self).spec_width(),
            row < old(self).spec_length(),
        ensures
            final(self).spec_width() == old(self).spec_width(),
            final(self).spec_length() == old(self).spec_length(),
            final(self).cell(column as int, row as int) == value,
            forall|c: int, r: int| (c != column || r != row) && 0 <= c < old(self).spec_width() && 0 <= r < old(self).spec_length()
                ==> #[trigger] final(self).cell(c, r) == old(self).cell(c, r),
    {
        proof {
            use_type_invariant(&*self);
            lemma_index_in_range(column as int, row as int, self.width as int, self.length as int);
        }
        let index = column * self.length + row;
        self.cells[index] = value;
        proof {
            assert forall|c: int, r: int| (c != column || r != row) && 0 <= c < old(self).spec_width() && 0 <= r < old(self).spec_length()
                implies #[trigger] self.cell(c, r) == old(self).cell(c, r) by {
                lemma_index_in_range(c, r, self.width as int, self.length as int);
                lemma_index_distinct(c, r, column as int, row as int, self.length as int);
            }
        }
    }

    pub fn get(&self, column: usize, row: usize) -> (r: Felt)
        requires
            column < self.spec_width(),
            row < self.spec_length(),
        ensures
            r == self.cell(column as int, row as int),
    {
        proof {
            use_type_invariant(self);
            lemma_index_in_range(column as int, row as int, self.width as int, self.length as int);
        }
        self.cells[column * self.length + row]
    }

    /// The cells of one column, row by row.
    pub fn column(&self, column: usize) -> (r: Vec<Felt>)
        requires
            column < self.spec_width(),
        ensures
            r@.len() == self.spec_length(),
            forall|i: int| 0 <= i < r@.len() ==> #[trigger] r@[i] == self.cell(column as int, i),
    {
        let length = self.length();
        let mut r: Vec<Felt> = Vec::new();
        let mut i: usize = 0;
        while i < length
            invariant
                length == self.spec_length(),
                column < self.spec_width(),
                i <= length,
                r@.len() == i,
                forall|k: int| 0 <= k < i ==> #[trigger] r@[k] == self.cell(column as int, k),
            decreases length - i,
        {
            r.push(self.get(column, i));
            i = i + 1;
        }
        r
    }

    /// The cells of one row, column by column.
    pub fn row(&self, row: usize) -> (r: Vec<Felt>)
        requires
            row < self.spec_length(),
        ensures
            r@ == self.spec_row(row as int),
    {
        let width = self.width();
        let mut r: Vec<Felt> = Vec::new();
        let mut c: usize = 0;
        while c < width
            invariant
                width == self.spec_width(),
                row < self.spec_length(),
                c <= width,
                r@.len() == c,
                forall|k: int| 0 <= k < c ==> #[trigger] r@[k] == self.cell(k, row as int),
            decreases width - c,
        {
            r.push(self.get(c, row));
            c = c + 1;
        }
        assert(r@ =~= self.spec_row(row as int));
        r
    }
}

proof fn lemma_index_in_range(c: int, r: int, w: int, l: int)
    requires
        0 <= c < w,
        0 <= r < l,
    ensures
        0 <= c * l + r < w * l,
{
    assert(c * l + r < w * l) by (nonlinear_arith)
        requires 0 <= c < w, 0 <= r < l;
    assert(0 <= c * l) by (nonlinear_arith)
        requires 0 <= c, 0 <= l;
}

proof fn lemma_index_distinct(c: int, r: int, c2: int, r2: int, l: int)
    requires
        0 <= r < l,
        0 <= r2 < l,
        c != c2 || r != r2,
    ensures
        c * l + r != c2 * l + r2,
{
    if c == c2 {
    } else {
        assert(c * l + r != c2 * l + r2) by (nonlinear_arith)
            requires 0 <= r < l, 0 <= r2 < l, c != c2;
    }
}


/// The value of a cell of a row, zero past its end.
pub open spec fn cell_val(row: Seq<Felt>, i: int) -> nat {
    if 0 <= i < row.len() {
        row[i].val()
    } else {
        0
    }
}

/// An arithmetic expression over the cells of a row and of the row after it.
pub enum Expr {
    /// A field constant.
    Const(Felt),
    /// A cell of the current row.
    Cur(usize),
    /// A cell of the next row.
    Next(usize),
    /// The sum of two expressions.
    Add(Box<Expr>, Box<Expr>),
    /// The difference of two expressions.
    Sub(Box<Expr>, Box<Expr>),
    /// The product of two expressions.
    Mul(Box<Expr>, Box<Expr>),
    /// The exclusive or of two bit valued expressions, a plus b less twice
    /// their product, each operand evaluated once.
    Xor(Box<Expr>, Box<Expr>),
}

/// The field formula of an exclusive or, exact on bits.
pub open spec fn xor_val(a: nat, b: nat) -> nat {
    fsub(fsub(fadd(a, b), fmul(a, b)), fmul(a, b))
}

impl Expr {
    /// The value of the expression on a pair of rows.
    pub open spec fn value(self, cur: Seq<Felt>, next: Seq<Felt>) -> nat
        decreases self,
    {
        match self {
            Expr::Const(c) => c.val(),
            Expr::Cur(i) => cell_val(cur, i as int),
            Expr::Next(i) => cell_val(next, i as int),
            Expr::Add(a, b) => fadd(a.value(cur, next), b.value(cur, next)),
            Expr::Sub(a, b) => fsub(a.value(cur, next), b.value(cur, next)),
            Expr::Mul(a, b) => fmul(a.value(cur, next), b.value(cur, next)),
            Expr::Xor(a, b) => xor_val(a.value(cur, next), b.value(cur, next)),
        }
    }

    /// Every cell the expression reads lies in a column below the width.
    pub open spec fn reads_below(self, width: nat) -> bool
        decreases self,
    {
        match self {
            Expr::Const(_) => true,
            Expr::Cur(i) => i < width,
            Expr::Next(i) => i < width,
            Expr::Add(a, b) => a.reads_below(width) && b.reads_below(width),
            Expr::Sub(a, b) => a.reads_below(width) && b.reads_below(width),
            Expr::Mul(a, b) => a.reads_below(width) && b.reads_below(width),
            Expr::Xor(a, b) => a.reads_below(width) && b.reads_below(width),
        }
    }

    pub fn constant(value: Felt) -> (e: Expr)
        ensures
            e == Expr::Const(value),
    {
        Expr::Const(value)
    }

    pub fn cur(column: usize) -> (e: Expr)
        ensures
            e == Expr::Cur(column),
    {
        Expr::Cur(column)
    }

    pub fn next(column: usize) -> (e: Expr)
        ensures
            e == Expr::Next(column),
    {
        Expr::Next(column)
    }

    pub fn add(self, other: Expr) -> (e: Expr)
        ensures
            e == Expr::Add(Box::new(self), Box::new(other)),
    {
        Expr::Add(Box::new(self), Box::new(other))
    }

    pub fn sub(self, other: Expr) -> (e: Expr)
        ensures
            e == Expr::Sub(Box::new(self), Box::new(other)),
    {
        Expr::Sub(Box::new(self), Box::new(other))
    }

    pub fn mul(self, other: Expr) -> (e: Expr)
        ensures
            e == Expr::Mul(Box::new(self), Box::new(other)),
    {
        Expr::Mul(Box::new(self), Box::new(other))
    }

    pub fn xor(self, other: Expr) -> (e: Expr)
        ensures
            e == Expr::Xor(Box::new(self), Box::new(other)),
    {
        Expr::Xor(Box::new(self), Box::new(other))
    }

    /// Evaluates the expression on a pair of rows.
    pub fn eval(&self, cur: &[Felt], next: &[Felt]) -> (r: Felt)
        ensures
            r.val() == self.value(cur@, next@),
        decreases self,
    {
        match self {
            Expr::Const(c) => *c,
            Expr::Cur(i) => {
                if *i < cur.len() {
                    cur[*i]
                } else {
                    Felt::zero()
                }
            },
            Expr::Next(i) => {
                if *i < next.len() {
                    next[*i]
                } else {
                    Felt::zero()
                }
            },
            Expr::Add(a, b) => {
                let x = a.eval(cur, next);
                let y = b.eval(cur, next);
                x.add(y)
            },
            Expr::Sub(a, b) => {
                let x = a.eval(cur, next);
                let y = b.eval(cur, next);
                x.sub(y)
            },
            Expr::Mul(a, b) => {
                let x = a.eval(cur, next);
                let y = b.eval(cur, next);
                x.mul(y)
            },
            Expr::Xor(a, b) => {
                let x = a.eval(cur, next);
                let y = b.eval(cur, next);
                let xy = x.mul(y);
                x.add(y).sub(xy).sub(xy)
            },
        }
    }
}

/// The inverse of an extension element as the field computes it.
pub open spec fn ext_inv(a: (nat, nat, nat)) -> (nat, nat, nat) {
    ext_scale(ext_adjugate(a), finv(ext_norm(a)))
}

/// A challenge value, the zero element past the end of the list.
pub open spec fn challenge_val(ch: Seq<Fp3>, i: int) -> (nat, nat, nat) {
    if 0 <= i < ch.len() {
        ch[i].val()
    } else {
        (0, 0, 0)
    }
}

/// An extension field expression over the verifier challenges and the cells
/// of one row.
pub enum ExtExpr {
    /// A challenge drawn after the base trace was fixed.
    Challenge(usize),
    /// A base field expression over the row, lifted into the extension.
    Base(Expr),
    /// The sum of two expressions.
    Add(Box<ExtExpr>, Box<ExtExpr>),
    /// The difference of two expressions.
    Sub(Box<ExtExpr>, Box<ExtExpr>),
    /// The product of two expressions.
    Mul(Box<ExtExpr>, Box<ExtExpr>),
}

impl ExtExpr {
    /// The value of the expression on a row under the challenges.
    pub open spec fn value(self, row: Seq<Felt>, ch: Seq<Fp3>) -> (nat, nat, nat)
        decreases self,
    {
        match self {
            ExtExpr::Challenge(i) => challenge_val(ch, i as int),
            ExtExpr::Base(e) => (e.value(row, row), 0, 0),
            ExtExpr::Add(a, b) => ext_add(a.value(row, ch), b.value(row, ch)),
            ExtExpr::Sub(a, b) => ext_sub(a.value(row, ch), b.value(row, ch)),
            ExtExpr::Mul(a, b) => ext_mul(a.value(row, ch), b.value(row, ch)),
        }
    }

    /// Every cell read lies below the width and every challenge below the count.
    pub open spec fn reads_below(self, width: nat, challenges: nat) -> bool
        decreases self,
    {
        match self {
            ExtExpr::Challenge(i) => i < challenges,
            ExtExpr::Base(e) => e.reads_below(width),
            ExtExpr::Add(a, b) => a.reads_below(width, challenges) && b.reads_below(width, challenges),
            ExtExpr::Sub(a, b) => a.reads_below(width, challenges) && b.reads_below(width, challenges),
            ExtExpr::Mul(a, b) => a.reads_below(width, challenges) && b.reads_below(width, challenges),
        }
    }

    pub fn challenge(index: usize) -> (e: ExtExpr)
        ensures
            e == ExtExpr::Challenge(index),
    {
        ExtExpr::Challenge(index)
    }

    pub fn base(inner: Expr) -> (e: ExtExpr)
        ensures
            e == ExtExpr::Base(inner),
    {
        ExtExpr::Base(inner)
    }

    pub fn add(self, other: ExtExpr) -> (e: ExtExpr)
        ensures
            e == ExtExpr::Add(Box::new(self), Box::new(other)),
    {
        ExtExpr::Add(Box::new(self), Box::new(other))
    }

    pub fn sub(self, other: ExtExpr) -> (e: ExtExpr)
        ensures
            e == ExtExpr::Sub(Box::new(self), Box::new(other)),
    {
        ExtExpr::Sub(Box::new(self), Box::new(other))
    }

    pub fn mul(self, other: ExtExpr) -> (e: ExtExpr)
        ensures
            e == ExtExpr::Mul(Box::new(self), Box::new(other)),
    {
        ExtExpr::Mul(Box::new(self), Box::new(other))
    }

    /// Evaluates the expression on a row under the challenges.
    pub fn eval(&self, row: &[Felt], ch: &[Fp3]) -> (r: Fp3)
        ensures
            r.val() == self.value(row@, ch@),
        decreases self,
    {
        match self {
            ExtExpr::Challenge(i) => {
                if *i < ch.len() {
                    ch[*i]
                } else {
                    Fp3::zero()
                }
            },
            ExtExpr::Base(e) => Fp3::from_base(e.eval(row, row)),
            ExtExpr::Add(a, b) => {
                let x = a.eval(row, ch);
                let y = b.eval(row, ch);
                x.add(y)
            },
            ExtExpr::Sub(a, b) => {
                let x = a.eval(row, ch);
                let y = b.eval(row, ch);
                x.sub(y)
            },
            ExtExpr::Mul(a, b) => {
                let x = a.eval(row, ch);
                let y = b.eval(row, ch);
                x.mul(y)
            },
        }
    }
}

/// A constraint between a row and the row after it, zero on every row.
pub struct Transition {
    /// The algebraic degree of the rule in the trace cells.
    pub degree: usize,
    /// Whether the last row, whose next row wraps to the first, is exempt.
    pub exclude_last: bool,
    /// Whether this is the running product rule of a permutation, which reads
    /// the challenges and the auxiliary column. Such a rule is checked
    /// against its permutation by `is_satisfied_with`; its `rule` over the
    /// base columns is the zero constant.
    pub uses_challenges: bool,
    /// The expression that must vanish.
    pub rule: Expr,
}

/// A fixed value for one cell of the trace.
pub struct Boundary {
    pub column: usize,
    pub row: usize,
    pub value: Felt,
}

/// A multiset equality between two factor lists, witnessed by a running
/// product column of the auxiliary trace.
pub struct Permutation {
    /// The degree of each factor in the trace cells.
    pub degree: usize,
    /// The auxiliary column that holds the running product.
    pub column: usize,
    /// The factor multiplied in on each row.
    pub numerator: ExtExpr,
    /// The factor divided out on each row.
    pub denominator: ExtExpr,
}

/// An algebraic description of a computation: the constraints a trace of
/// a given width and length must meet.
pub struct Air {
    base_width: usize,
    aux_width: usize,
    length: usize,
    num_challenges: usize,
    transitions: Vec<Transition>,
    boundaries: Vec<Boundary>,
    permutations: Vec<Permutation>,
}

/// Whether a transition holds between the given rows.
pub open spec fn transition_holds(t: Transition, cur: Seq<Felt>, next: Seq<Felt>, last: bool) -> bool {
    t.uses_challenges || (t.exclude_last && last) || t.rule.value(cur, next) == 0
}

/// The transition a permutation with factors of the given degree adds: one
/// degree more than its factors, on every row, reading the challenges.
pub open spec fn running_product_transition(degree: nat) -> Transition {
    Transition {
        degree: (degree + 1) as usize,
        exclude_last: false,
        uses_challenges: true,
        rule: Expr::Const(Felt::from_val(0)),
    }
}

impl Air {
    pub closed spec fn spec_base_width(&self) -> nat {
        self.base_width as nat
    }

    pub closed spec fn spec_aux_width(&self) -> nat {
        self.aux_width as nat
    }

    pub closed spec fn spec_length(&self) -> nat {
        self.length as nat
    }

    pub closed spec fn spec_num_challenges(&self) -> nat {
        self.num_challenges as nat
    }

    pub closed spec fn spec_transitions(&self) -> Seq<Transition> {
        self.transitions@
    }

    pub closed spec fn spec_boundaries(&self) -> Seq<Boundary> {
        self.boundaries@
    }

    pub closed spec fn spec_permutations(&self) -> Seq<Permutation> {
        self.permutations@
    }

    /// The shape every description keeps: a power of two length, one
    /// auxiliary column per permutation, and every constraint reading only
    /// cells that exist.
    pub open spec fn wf(&self) -> bool {
        &&& is_pow2(self.spec_length())
        &&& self.spec_aux_width() == self.spec_permutations().len()
        &&& self.spec_base_width() + self.spec_aux_width() <= usize::MAX
        &&& forall|i: int| 0 <= i < self.spec_transitions().len()
            ==> (#[trigger] self.spec_transitions()[i]).rule.reads_below(self.spec_base_width())
        &&& forall|j: int| 0 <= j < self.spec_boundaries().len()
            ==> (#[trigger] self.spec_boundaries()[j]).column < self.spec_base_width() + self.spec_aux_width()
                && self.spec_boundaries()[j].row < self.spec_length()
        &&& forall|k: int| 0 <= k < self.spec_permutations().len() ==> {
            let perm = #[trigger] self.spec_permutations()[k];
            &&& perm.column == self.spec_base_width() + k
            &&& perm.degree < usize::MAX
            &&& perm.numerator.reads_below(self.spec_base_width(), self.spec_num_challenges())
            &&& perm.denominator.reads_below(self.spec_base_width(), self.spec_num_challenges())
        }
    }

    /// A description with no constraints yet. The length must be a power of
    /// two.
    pub fn new(width: usize, length: usize) -> (air: Air)
        requires
            is_pow2(length as nat),
        ensures
            air.wf(),
            air.spec_base_width() == width,
            air.spec_aux_width() == 0,
            air.spec_length() == length,
            air.spec_num_challenges() == 0,
            air.spec_transitions().len() == 0,
            air.spec_boundaries().len() == 0,
            air.spec_permutations().len() == 0,
    {
        Air {
            base_width: width,
            aux_width: 0,
            length,
            num_challenges: 0,
            transitions: Vec::new(),
            boundaries: Vec::new(),
            permutations: Vec::new(),
        }
    }

    /// The number of columns, base and auxiliary together.
    pub fn width(&self) -> (r: usize)
        requires
            self.wf(),
        ensures
            r == self.spec_base_width() + self.spec_aux_width(),
    {
        self.base_width + self.aux_width
    }

    pub fn base_width(&self) -> (r: usize)
        ensures
            r == self.spec_base_width(),
    {
        self.base_width
    }

    pub fn aux_width(&self) -> (r: usize)
        ensures
            r == self.spec_aux_width(),
    {
        self.aux_width
    }

    pub fn num_challenges(&self) -> (r: usize)
        ensures
            r == self.spec_num_challenges(),
    {
        self.num_challenges
    }

    pub fn length(&self) -> (r: usize)
        ensures
            r == self.spec_length(),
    {
        self.length
    }

    pub fn transitions(&self) -> (r: &[Transition])
        ensures
            r@ == self.spec_transitions(),
    {
        self.transitions.as_slice()
    }

    pub fn boundaries(&self) -> (r: &[Boundary])
        ensures
            r@ == self.spec_boundaries(),
    {
        self.boundaries.as_slice()
    }

    pub fn permutations(&self) -> (r: &[Permutation])
        ensures
            r@ == self.spec_permutations(),
    {
        self.permutations.as_slice()
    }

    /// Adds a rule between each row and the next one, the last row exempt.
    pub fn add_transition(&mut self, degree: usize, rule: Expr)
        requires
            old(self).wf(),
            rule.reads_below(old(self).spec_base_width()),
        ensures
            final(self).wf(),
            final(self).spec_transitions() == old(self).spec_transitions().push(
                Transition { degree, exclude_last: true, uses_challenges: false, rule },
            ),
            final(self).spec_boundaries() == old(self).spec_boundaries(),
            final(self).spec_permutations() == old(self).spec_permutations(),
            final(self).spec_base_width() == old(self).spec_base_width(),
            final(self).spec_aux_width() == old(self).spec_aux_width(),
            final(self).spec_length() == old(self).spec_length(),
            final(self).spec_num_challenges() == old(self).spec_num_challenges(),
    {
        self.transitions.push(Transition { degree, exclude_last: true, uses_challenges: false, rule });
        proof {
            lemma_frame(old(self), self);
            assert forall|i: int| 0 <= i < self.spec_transitions().len()
                implies (#[trigger] self.spec_transitions()[i]).rule.reads_below(self.spec_base_width()) by {
                if i < old(self).spec_transitions().len() {
                    assert(self.spec_transitions()[i] == old(self).spec_transitions()[i]);
                }
            }
        }
    }

    /// Adds a rule on each row alone, the last row included.
    pub fn add_single_row(&mut self, degree: usize, rule: Expr)
        requires
            old(self).wf(),
            rule.reads_below(old(self).spec_base_width()),
        ensures
            final(self).wf(),
            final(self).spec_transitions() == old(self).spec_transitions().push(
                Transition { degree, exclude_last: false, uses_challenges: false, rule },
            ),
            final(self).spec_boundaries() == old(self).spec_boundaries(),
            final(self).spec_permutations() == old(self).spec_permutations(),
            final(self).spec_base_width() == old(self).spec_base_width(),
            final(self).spec_aux_width() == old(self).spec_aux_width(),
            final(self).spec_length() == old(self).spec_length(),
            final(self).spec_num_challenges() == old(self).spec_num_challenges(),
    {
        self.transitions.push(Transition { degree, exclude_last: false, uses_challenges: false, rule });
        proof {
            lemma_frame(old(self), self);
            assert forall|i: int| 0 <= i < self.spec_transitions().len()
                implies (#[trigger] self.spec_transitions()[i]).rule.reads_below(self.spec_base_width()) by {
                if i < old(self).spec_transitions().len() {
                    assert(self.spec_transitions()[i] == old(self).spec_transitions()[i]);
                }
            }
        }
    }

    /// Adds a rule between each row and the next one, where the last row
    /// wraps around to the first.
    pub fn add_wrap_transition(&mut self, degree: usize, rule: Expr)
        requires
            old(self).wf(),
            rule.reads_below(old(self).spec_base_width()),
        ensures
            final(self).wf(),
            final(self).spec_transitions() == old(self).spec_transitions().push(
                Transition { degree, exclude_last: false, uses_challenges: false, rule },
            ),
            final(self).spec_boundaries() == old(self).spec_boundaries(),
            final(self).spec_permutations() == old(self).spec_permutations(),
            final(self).spec_base_width() == old(self).spec_base_width(),
            final(self).spec_aux_width() == old(self).spec_aux_width(),
            final(self).spec_length() == old(self).spec_length(),
            final(self).spec_num_challenges() == old(self).spec_num_challenges(),
    {
        self.transitions.push(Transition { degree, exclude_last: false, uses_challenges: false, rule });
        proof {
            lemma_frame(old(self), self);
            assert forall|i: int| 0 <= i < self.spec_transitions().len()
                implies (#[trigger] self.spec_transitions()[i]).rule.reads_below(self.spec_base_width()) by {
                if i < old(self).spec_transitions().len() {
                    assert(self.spec_transitions()[i] == old(self).spec_transitions()[i]);
                }
            }
        }
    }

    /// Fixes the value of one cell.
    pub fn add_boundary(&mut self, column: usize, row: usize, value: Felt)
        requires
            old(self).wf(),
            column < old(self).spec_base_width() + old(self).spec_aux_width(),
            row < old(self).spec_length(),
        ensures
            final(self).wf(),
            final(self).spec_boundaries() == old(self).spec_boundaries().push(Boundary { column, row, value }),
            final(self).spec_transitions() == old(self).spec_transitions(),
            final(self).spec_permutations() == old(self).spec_permutations(),
            final(self).spec_base_width() == old(self).spec_base_width(),
            final(self).spec_aux_width() == old(self).spec_aux_width(),
            final(self).spec_length() == old(self).spec_length(),
            final(self).spec_num_challenges() == old(self).spec_num_challenges(),
    {
        self.boundaries.push(Boundary { column, row, value });
        proof {
            assert forall|j: int| 0 <= j < self.spec_boundaries().len()
                implies (#[trigger] self.spec_boundaries()[j]).column < self.spec_base_width() + self.spec_aux_width()
                    && self.spec_boundaries()[j].row < self.spec_length() by {
                if j < old(self).spec_boundaries().len() {
                    assert(self.spec_boundaries()[j] == old(self).spec_boundaries()[j]);
                }
            }
        }
    }

    /// Reserves one more verifier challenge and returns its index.
    pub fn add_challenge(&mut self) -> (index: usize)
        requires
            old(self).wf(),
            old(self).spec_num_challenges() < usize::MAX,
        ensures
            final(self).wf(),
            index == old(self).spec_num_challenges(),
            final(self).spec_num_challenges() == old(self).spec_num_challenges() + 1,
            final(self).spec_transitions() == old(self).spec_transitions(),
            final(self).spec_boundaries() == old(self).spec_boundaries(),
            final(self).spec_permutations() == old(self).spec_permutations(),
            final(self).spec_base_width() == old(self).spec_base_width(),
            final(self).spec_aux_width() == old(self).spec_aux_width(),
            final(self).spec_length() == old(self).spec_length(),
    {
        let index = self.num_challenges;
        self.num_challenges = self.num_challenges + 1;
        proof {
            assert forall|j: int| 0 <= j < self.spec_boundaries().len()
                implies (#[trigger] self.spec_boundaries()[j]).column < self.spec_base_width() + self.spec_aux_width()
                    && self.spec_boundaries()[j].row < self.spec_length() by {
                assert(self.spec_boundaries()[j] == old(self).spec_boundaries()[j]);
            }
            assert forall|k: int| 0 <= k < self.spec_permutations().len() implies {
                let perm = #[trigger] self.spec_permutations()[k];
                &&& perm.numerator.reads_below(self.spec_base_width(), self.spec_num_challenges())
                &&& perm.denominator.reads_below(self.spec_base_width(), self.spec_num_challenges())
            } by {
                let perm = self.spec_permutations()[k];
                lemma_reads_below_grows(perm.numerator, self.spec_base_width(), old(self).spec_num_challenges(), self.spec_num_challenges());
                lemma_reads_below_grows(perm.denominator, self.spec_base_width(), old(self).spec_num_challenges(), self.spec_num_challenges());
            }
        }
        index
    }

    /// Adds a multiset equality between the numerator and denominator factors
    /// over all rows. It takes a new auxiliary column, fixed to one on the
    /// first row, and returns that column.
    pub fn add_permutation(&mut self, degree: usize, numerator: ExtExpr, denominator: ExtExpr) -> (column: usize)
        requires
            old(self).wf(),
            degree < usize::MAX,
            old(self).spec_base_width() + old(self).spec_aux_width() < usize::MAX,
            numerator.reads_below(old(self).spec_base_width(), old(self).spec_num_challenges()),
            denominator.reads_below(old(self).spec_base_width(), old(self).spec_num_challenges()),
        ensures
            final(self).wf(),
            column == old(self).spec_base_width() + old(self).spec_aux_width(),
            final(self).spec_aux_width() == old(self).spec_aux_width() + 1,
            final(self).spec_permutations() == old(self).spec_permutations().push(
                Permutation { degree, column, numerator, denominator },
            ),
            final(self).spec_boundaries() == old(self).spec_boundaries().push(
                Boundary { column, row: 0, value: Felt::from_val(1) },
            ),
            final(self).spec_transitions() == old(self).spec_transitions().push(
                running_product_transition(degree as nat),
            ),
            final(self).spec_base_width() == old(self).spec_base_width(),
            final(self).spec_length() == old(self).spec_length(),
            final(self).spec_num_challenges() == old(self).spec_num_challenges(),
    {
        let column = self.base_width + self.aux_width;
        self.aux_width = self.aux_width + 1;
        proof {
            lemma_pow2_positive(self.length as nat);
        }
        let one = Felt::one();
        proof {
            Felt::lemma_from_val(1);
        }
        self.boundaries.push(Boundary { column, row: 0, value: one });
        let zero = Felt::zero();
        proof {
            Felt::lemma_from_val(0);
            Felt::lemma_val_injective(zero, Felt::from_val(0));
        }
        self.transitions.push(Transition {
            degree: degree + 1,
            exclude_last: false,
            uses_challenges: true,
            rule: Expr::Const(zero),
        });
        self.permutations.push(Permutation { degree, column, numerator, denominator });
        proof {
            assert forall|i: int| 0 <= i < self.spec_transitions().len()
                implies (#[trigger] self.spec_transitions()[i]).rule.reads_below(self.spec_base_width()) by {
                if i < old(self).spec_transitions().len() {
                    assert(self.spec_transitions()[i] == old(self).spec_transitions()[i]);
                }
            }
            assert forall|j: int| 0 <= j < self.spec_boundaries().len()
                implies (#[trigger] self.spec_boundaries()[j]).column < self.spec_base_width() + self.spec_aux_width()
                    && self.spec_boundaries()[j].row < self.spec_length() by {
                if j < old(self).spec_boundaries().len() {
                    assert(self.spec_boundaries()[j] == old(self).spec_boundaries()[j]);
                }
            }
            assert forall|k: int| 0 <= k < self.spec_permutations().len() implies {
                let perm = #[trigger] self.spec_permutations()[k];
                &&& perm.column == self.spec_base_width() + k
                &&& perm.degree < usize::MAX
                &&& perm.numerator.reads_below(self.spec_base_width(), self.spec_num_challenges())
                &&& perm.denominator.reads_below(self.spec_base_width(), self.spec_num_challenges())
            } by {
                if k < old(self).spec_permutations().len() {
                    assert(self.spec_permutations()[k] == old(self).spec_permutations()[k]);
                }
            }
        }
        column
    }

    /// Whether transition i holds between row r and the row after it.
    pub open spec fn transition_ok(&self, trace: &TraceTable, r: int, i: int) -> bool {
        let n = self.spec_length() as int;
        transition_holds(
            self.spec_transitions()[i],
            trace.spec_row(r),
            trace.spec_row((r + 1) % n),
            r == n - 1,
        )
    }

    /// Whether boundary j holds, or lies in an auxiliary column.
    pub open spec fn boundary_ok(&self, trace: &TraceTable, j: int) -> bool {
        let b = self.spec_boundaries()[j];
        b.column >= self.spec_base_width() || trace.cell(b.column as int, b.row as int) == b.value
    }

    /// Every transition holds on every row and every boundary on the base
    /// columns holds.
    pub open spec fn spec_satisfied(&self, trace: &TraceTable) -> bool {
        &&& forall|r: int, i: int|
            0 <= r < self.spec_length() && 0 <= i < self.spec_transitions().len()
                ==> #[trigger] self.transition_ok(trace, r, i)
        &&& forall|j: int| 0 <= j < self.spec_boundaries().len() ==> #[trigger] self.boundary_ok(trace, j)
    }

    /// Whether d is the largest constraint degree, a permutation counting one
    /// more than its factors, and at least one.
    pub open spec fn is_max_degree(&self, d: nat) -> bool {
        &&& d >= 1
        &&& forall|i: int| 0 <= i < self.spec_transitions().len() ==> d >= #[trigger] self.spec_transitions()[i].degree
        &&& forall|k: int| 0 <= k < self.spec_permutations().len() ==> d >= #[trigger] self.spec_permutations()[k].degree + 1
        &&& d == 1
            || (exists|i: int| 0 <= i < self.spec_transitions().len() && d == #[trigger] self.spec_transitions()[i].degree)
            || (exists|k: int| 0 <= k < self.spec_permutations().len() && d == #[trigger] self.spec_permutations()[k].degree + 1)
    }

    /// The largest constraint degree.
    pub open spec fn spec_max_degree(&self) -> nat {
        choose|d: nat| self.is_max_degree(d)
    }

    /// There is one largest constraint degree.
    pub proof fn lemma_max_degree_unique(&self, a: nat, b: nat)
        requires
            self.is_max_degree(a),
            self.is_max_degree(b),
        ensures
            a == b,
    {
        assert(a <= b);
        assert(b <= a);
    }

    /// The largest constraint degree, a permutation counting one more than
    /// its factors, and at least one.
    pub fn max_degree(&self) -> (r: usize)
        requires
            self.wf(),
        ensures
            r == self.spec_max_degree(),
            r >= 1,
            forall|i: int| 0 <= i < self.spec_transitions().len() ==> r >= #[trigger] self.spec_transitions()[i].degree,
            forall|k: int| 0 <= k < self.spec_permutations().len() ==> r >= #[trigger] self.spec_permutations()[k].degree + 1,
            r == 1
                || (exists|i: int| 0 <= i < self.spec_transitions().len() && r == #[trigger] self.spec_transitions()[i].degree)
                || (exists|k: int| 0 <= k < self.spec_permutations().len() && r == #[trigger] self.spec_permutations()[k].degree + 1),
    {
        let mut best: usize = 1;
        let mut i: usize = 0;
        while i < self.transitions.len()
            invariant
                i <= self.transitions@.len(),
                best >= 1,
                forall|k: int| 0 <= k < i ==> best >= #[trigger] self.spec_transitions()[k].degree,
                best == 1 || (exists|k: int| 0 <= k < i && best == #[trigger] self.spec_transitions()[k].degree),
            decreases self.transitions@.len() - i,
        {
            let d = self.transitions[i].degree;
            if d > best {
                best = d;
            }
            i = i + 1;
        }
        let mut k: usize = 0;
        while k < self.permutations.len()
            invariant
                self.wf(),
                k <= self.permutations@.len(),
                best >= 1,
                forall|t: int| 0 <= t < self.spec_transitions().len() ==> best >= #[trigger] self.spec_transitions()[t].degree,
                forall|m: int| 0 <= m < k ==> best >= #[trigger] self.spec_permutations()[m].degree + 1,
                best == 1
                    || (exists|t: int| 0 <= t < self.spec_transitions().len() && best == #[trigger] self.spec_transitions()[t].degree)
                    || (exists|m: int| 0 <= m < k && best == #[trigger] self.spec_permutations()[m].degree + 1),
            decreases self.permutations@.len() - k,
        {
            let d = self.permutations[k].degree;
            if d + 1 > best {
                best = d + 1;
            }
            k = k + 1;
        }
        proof {
            assert(self.is_max_degree(best as nat));
            let d = self.spec_max_degree();
            self.lemma_max_degree_unique(best as nat, d);
        }
        best
    }

    /// Checks every transition on every row and every boundary on the base
    /// columns; constraints that use challenges are left to
    /// `is_satisfied_with`.
    pub fn is_satisfied(&self, trace: &TraceTable) -> (r: bool)
        requires
            self.wf(),
            trace.spec_width() >= self.spec_base_width(),
            trace.spec_length() >= self.spec_length(),
        ensures
            r == self.spec_satisfied(trace),
    {
        let n = self.length;
        proof {
            lemma_pow2_positive(n as nat);
        }
        let mut row: usize = 0;
        while row < n
            invariant
                self.wf(),
                n == self.spec_length(),
                n >= 1,
                trace.spec_width() >= self.spec_base_width(),
                trace.spec_length() >= n,
                row <= n,
                forall|r: int, i: int| 0 <= r < row && 0 <= i < self.spec_transitions().len()
                    ==> #[trigger] self.transition_ok(trace, r, i),
            decreases n - row,
        {
            let current = trace.row(row);
            let next = trace.row((row + 1) % n);
            let mut i: usize = 0;
            while i < self.transitions.len()
                invariant
                    self.wf(),
                    n == self.spec_length(),
                    n >= 1,
                    row < n,
                    trace.spec_length() >= n,
                    current@ == trace.spec_row(row as int),
                    next@ == trace.spec_row((row as int + 1) % (n as int)),
                    i <= self.spec_transitions().len(),
                    forall|r: int, t: int| 0 <= r < row && 0 <= t < self.spec_transitions().len()
                        ==> #[trigger] self.transition_ok(trace, r, t),
                    forall|t: int| 0 <= t < i ==> #[trigger] self.transition_ok(trace, row as int, t),
                decreases self.spec_transitions().len() - i,
            {
                let constraint = &self.transitions[i];
                if !constraint.uses_challenges && !(constraint.exclude_last && row == n - 1) {
                    let value = constraint.rule.eval(current.as_slice(), next.as_slice());
                    if value.to_u64() != 0 {
                        assert(!self.transition_ok(trace, row as int, i as int));
                        return false;
                    }
                }
                i = i + 1;
            }
            row = row + 1;
        }
        let mut j: usize = 0;
        while j < self.boundaries.len()
            invariant
                self.wf(),
                n == self.spec_length(),
                trace.spec_width() >= self.spec_base_width(),
                trace.spec_length() >= n,
                j <= self.spec_boundaries().len(),
                forall|r: int, i: int| 0 <= r < n && 0 <= i < self.spec_transitions().len()
                    ==> #[trigger] self.transition_ok(trace, r, i),
                forall|k: int| 0 <= k < j ==> #[trigger] self.boundary_ok(trace, k),
            decreases self.spec_boundaries().len() - j,
        {
            let boundary = &self.boundaries[j];
            assert(self.spec_boundaries()[j as int] == *boundary);
            if boundary.column < self.base_width {
                let value = trace.get(boundary.column, boundary.row);
                if value.to_u64() != boundary.value.to_u64() {
                    assert(!self.boundary_ok(trace, j as int));
                    return false;
                }
            }
            j = j + 1;
        }
        true
    }

    /// The numerator factor of permutation k on row r.
    pub open spec fn num_at(&self, base: &TraceTable, ch: Seq<Fp3>, k: int, r: int) -> (nat, nat, nat) {
        self.spec_permutations()[k].numerator.value(base.spec_row(r), ch)
    }

    /// The denominator factor of permutation k on row r.
    pub open spec fn den_at(&self, base: &TraceTable, ch: Seq<Fp3>, k: int, r: int) -> (nat, nat, nat) {
        self.spec_permutations()[k].denominator.value(base.spec_row(r), ch)
    }

    /// The running product column of permutation k at row r: one on the first
    /// row, then each row multiplies in the numerator factor of the row before
    /// and divides out its denominator factor.
    pub open spec fn running(&self, base: &TraceTable, ch: Seq<Fp3>, k: int, r: nat) -> (nat, nat, nat)
        decreases r,
    {
        if r == 0 {
            (1, 0, 0)
        } else {
            let prev = (r - 1) as nat;
            ext_mul(
                ext_mul(self.running(base, ch, k, prev), self.num_at(base, ch, k, prev as int)),
                ext_inv(self.den_at(base, ch, k, prev as int)),
            )
        }
    }

    /// The running product rule of permutation k between row r and the next
    /// row, the last row wrapping to the first.
    pub open spec fn permutation_ok(&self, base: &TraceTable, ch: Seq<Fp3>, k: int, r: int) -> bool {
        let n = self.spec_length() as int;
        let here = self.running(base, ch, k, r as nat);
        let after = self.running(base, ch, k, ((r + 1) % n) as nat);
        ext_sub(ext_mul(after, self.den_at(base, ch, k, r)), ext_mul(here, self.num_at(base, ch, k, r)))
            == (0nat, 0nat, 0nat)
    }

    /// Boundary j holds on the running product columns, or lies in a base
    /// column.
    pub open spec fn aux_boundary_ok(&self, base: &TraceTable, ch: Seq<Fp3>, j: int) -> bool {
        let b = self.spec_boundaries()[j];
        b.column < self.spec_base_width()
            || self.running(base, ch, b.column - self.spec_base_width(), b.row as nat) == (b.value.val(), 0nat, 0nat)
    }

    /// The base trace meets every constraint, and the running product columns
    /// built from it under the challenges meet theirs.
    pub open spec fn spec_satisfied_with(&self, base: &TraceTable, ch: Seq<Fp3>) -> bool {
        &&& self.spec_satisfied(base)
        &&& forall|k: int, r: int|
            0 <= k < self.spec_permutations().len() && 0 <= r < self.spec_length()
                ==> #[trigger] self.permutation_ok(base, ch, k, r)
        &&& forall|j: int| 0 <= j < self.spec_boundaries().len() ==> #[trigger] self.aux_boundary_ok(base, ch, j)
    }

    /// The running product column of each permutation over the base trace.
    pub fn build_aux(&self, base: &TraceTable, challenges: &[Fp3]) -> (aux: Vec<Vec<Fp3>>)
        requires
            self.wf(),
            base.spec_width() >= self.spec_base_width(),
            base.spec_length() >= self.spec_length(),
        ensures
            aux@.len() == self.spec_permutations().len(),
            forall|k: int| 0 <= k < aux@.len() ==> (#[trigger] aux@[k])@.len() == self.spec_length(),
            forall|k: int, r: int| 0 <= k < aux@.len() && 0 <= r < self.spec_length()
                ==> (#[trigger] aux@[k]@[r]).val() == self.running(base, challenges@, k, r as nat),
    {
        let n = self.length;
        proof {
            lemma_pow2_positive(n as nat);
        }
        let mut columns: Vec<Vec<Fp3>> = Vec::new();
        let mut k: usize = 0;
        while k < self.permutations.len()
            invariant
                self.wf(),
                n == self.spec_length(),
                n >= 1,
                base.spec_length() >= n,
                k <= self.spec_permutations().len(),
                columns@.len() == k,
                forall|m: int| 0 <= m < k ==> (#[trigger] columns@[m])@.len() == n,
                forall|m: int, r: int| 0 <= m < k && 0 <= r < n
                    ==> (#[trigger] columns@[m]@[r]).val() == self.running(base, challenges@, m, r as nat),
            decreases self.spec_permutations().len() - k,
        {
            let perm = &self.permutations[k];
            assert(self.spec_permutations()[k as int] == *perm);
            let mut column: Vec<Fp3> = Vec::new();
            let mut running = Fp3::one();
            column.push(running);
            let mut row: usize = 0;
            while row + 1 < n
                invariant
                    self.wf(),
                    n == self.spec_length(),
                    base.spec_length() >= n,
                    k < self.spec_permutations().len(),
                    self.spec_permutations()[k as int] == *perm,
                    row < n,
                    column@.len() == row + 1,
                    running.val() == self.running(base, challenges@, k as int, row as nat),
                    forall|r: int| 0 <= r <= row
                        ==> (#[trigger] column@[r]).val() == self.running(base, challenges@, k as int, r as nat),
                decreases n - row,
            {
                let current = base.row(row);
                let num = perm.numerator.eval(current.as_slice(), challenges);
                let den = perm.denominator.eval(current.as_slice(), challenges);
                running = running.mul(num).mul(den.inv());
                column.push(running);
                row = row + 1;
            }
            columns.push(column);
            k = k + 1;
        }
        columns
    }

    /// Checks the base constraints, then builds the running product columns
    /// under the challenges and checks them too.
    pub fn is_satisfied_with(&self, base: &TraceTable, challenges: &[Fp3]) -> (r: bool)
        requires
            self.wf(),
            base.spec_width() == self.spec_base_width(),
            base.spec_length() >= self.spec_length(),
            challenges@.len() == self.spec_num_challenges(),
        ensures
            r == self.spec_satisfied_with(base, challenges@),
    {
        if !self.is_satisfied(base) {
            return false;
        }
        let aux = self.build_aux(base, challenges);
        let n = self.length;
        proof {
            lemma_pow2_positive(n as nat);
        }
        let mut k: usize = 0;
        while k < self.permutations.len()
            invariant
                self.wf(),
                n == self.spec_length(),
                n >= 1,
                base.spec_length() >= n,
                base.spec_width() == self.spec_base_width(),
                k <= self.spec_permutations().len(),
                aux@.len() == self.spec_permutations().len(),
                forall|m: int| 0 <= m < aux@.len() ==> (#[trigger] aux@[m])@.len() == n,
                forall|m: int, r: int| 0 <= m < aux@.len() && 0 <= r < n
                    ==> (#[trigger] aux@[m]@[r]).val() == self.running(base, challenges@, m, r as nat),
                forall|m: int, r: int| 0 <= m < k && 0 <= r < n ==> #[trigger] self.permutation_ok(base, challenges@, m, r),
            decreases self.spec_permutations().len() - k,
        {
            let perm = &self.permutations[k];
            assert(self.spec_permutations()[k as int] == *perm);
            let mut row: usize = 0;
            while row < n
                invariant
                    self.wf(),
                    n == self.spec_length(),
                    n >= 1,
                    base.spec_length() >= n,
                    k < self.spec_permutations().len(),
                    self.spec_permutations()[k as int] == *perm,
                    aux@.len() == self.spec_permutations().len(),
                    forall|m: int| 0 <= m < aux@.len() ==> (#[trigger] aux@[m])@.len() == n,
                    forall|m: int, r: int| 0 <= m < aux@.len() && 0 <= r < n
                        ==> (#[trigger] aux@[m]@[r]).val() == self.running(base, challenges@, m, r as nat),
                    forall|m: int, r: int| 0 <= m < k && 0 <= r < n ==> #[trigger] self.permutation_ok(base, challenges@, m, r),
                    row <= n,
                    forall|r: int| 0 <= r < row ==> #[trigger] self.permutation_ok(base, challenges@, k as int, r),
                decreases n - row,
            {
                let current = base.row(row);
                let num = perm.numerator.eval(current.as_slice(), challenges);
                let den = perm.denominator.eval(current.as_slice(), challenges);
                let here = aux[k][row];
                let after = aux[k][(row + 1) % n];
                let value = after.mul(den).sub(here.mul(num));
                if value != Fp3::zero() {
                    assert(!self.permutation_ok(base, challenges@, k as int, row as int));
                    return false;
                }
                row = row + 1;
            }
            k = k + 1;
        }
        let mut j: usize = 0;
        while j < self.boundaries.len()
            invariant
                self.wf(),
                n == self.spec_length(),
                base.spec_length() >= n,
                aux@.len() == self.spec_permutations().len(),
                forall|m: int| 0 <= m < aux@.len() ==> (#[trigger] aux@[m])@.len() == n,
                forall|m: int, r: int| 0 <= m < aux@.len() && 0 <= r < n
                    ==> (#[trigger] aux@[m]@[r]).val() == self.running(base, challenges@, m, r as nat),
                j <= self.spec_boundaries().len(),
                forall|m: int| 0 <= m < j ==> #[trigger] self.aux_boundary_ok(base, challenges@, m),
            decreases self.spec_boundaries().len() - j,
        {
            let boundary = &self.boundaries[j];
            assert(self.spec_boundaries()[j as int] == *boundary);
            if boundary.column >= self.base_width {
                let here = aux[boundary.column - self.base_width][boundary.row];
                if here != Fp3::from_base(boundary.value) {
                    assert(!self.aux_boundary_ok(base, challenges@, j as int));
                    return false;
                }
            }
            j = j + 1;
        }
        true
    }
}


proof fn lemma_frame(a: &Air, b: &Air)
    requires
        a.wf(),
        b.spec_length() == a.spec_length(),
        b.spec_base_width() == a.spec_base_width(),
        b.spec_aux_width() == a.spec_aux_width(),
        b.spec_num_challenges() == a.spec_num_challenges(),
        b.spec_boundaries() == a.spec_boundaries(),
        b.spec_permutations() == a.spec_permutations(),
    ensures
        forall|j: int| 0 <= j < b.spec_boundaries().len()
            ==> (#[trigger] b.spec_boundaries()[j]).column < b.spec_base_width() + b.spec_aux_width()
                && b.spec_boundaries()[j].row < b.spec_length(),
        forall|k: int| 0 <= k < b.spec_permutations().len() ==> {
            let perm = #[trigger] b.spec_permutations()[k];
            &&& perm.column == b.spec_base_width() + k
            &&& perm.degree < usize::MAX
            &&& perm.numerator.reads_below(b.spec_base_width(), b.spec_num_challenges())
            &&& perm.denominator.reads_below(b.spec_base_width(), b.spec_num_challenges())
        },
{
    assert forall|j: int| 0 <= j < b.spec_boundaries().len()
        implies (#[trigger] b.spec_boundaries()[j]).column < b.spec_base_width() + b.spec_aux_width()
            && b.spec_boundaries()[j].row < b.spec_length() by {
        assert(b.spec_boundaries()[j] == a.spec_boundaries()[j]);
    }
    assert forall|k: int| 0 <= k < b.spec_permutations().len() implies {
        let perm = #[trigger] b.spec_permutations()[k];
        &&& perm.column == b.spec_base_width() + k
        &&& perm.degree < usize::MAX
        &&& perm.numerator.reads_below(b.spec_base_width(), b.spec_num_challenges())
        &&& perm.denominator.reads_below(b.spec_base_width(), b.spec_num_challenges())
    } by {
        assert(b.spec_permutations()[k] == a.spec_permutations()[k]);
    }
}

proof fn lemma_reads_below_grows(e: ExtExpr, width: nat, a: nat, b: nat)
    requires
        e.reads_below(width, a),
        a <= b,
    ensures
        e.reads_below(width, b),
    decreases e,
{
    match e {
        ExtExpr::Challenge(_) => {},
        ExtExpr::Base(_) => {},
        ExtExpr::Add(x, y) => {
            lemma_reads_below_grows(*x, width, a, b);
            lemma_reads_below_grows(*y, width, a, b);
        },
        ExtExpr::Sub(x, y) => {
            lemma_reads_below_grows(*x, width, a, b);
            lemma_reads_below_grows(*y, width, a, b);
        },
        ExtExpr::Mul(x, y) => {
            lemma_reads_below_grows(*x, width, a, b);
            lemma_reads_below_grows(*y, width, a, b);
        },
    }
}

proof fn lemma_pow2_positive(n: nat)
    requires
        is_pow2(n),
    ensures
        n >= 1,
{
    lemma_pow2_log2(n);
    lemma_two_pow_positive(log2(n));
}

proof fn lemma_two_pow_positive(k: nat)
    ensures
        two_pow(k) >= 1,
    decreases k,
{
    if k > 0 {
        lemma_two_pow_positive((k - 1) as nat);
    }
}


/// Bit k of a number.
pub open spec fn bit_of(x: nat, k: nat) -> nat {
    (x / pow2(k)) % 2
}

/// The cells from a base column on, weighted by successive powers of two and
/// summed in the field.
pub open spec fn recompose_val(row: Seq<Felt>, base: nat, bits: nat) -> nat
    decreases bits,
{
    if bits == 0 {
        0
    } else {
        let k = (bits - 1) as nat;
        fadd(recompose_val(row, base, k), fmul(cell_val(row, (base + k) as int), fpow(2, k)))
    }
}

/// The field product of a cell with itself less one, zero exactly on bits.
pub open spec fn bool_val(row: Seq<Felt>, col: nat) -> nat {
    fmul(cell_val(row, col as int), fsub(cell_val(row, col as int), 1))
}

impl Expr {
    /// The sum of the cells base to base plus bits less one of the current
    /// row, each weighted by its power of two.
    pub fn recompose(base: usize, bits: usize) -> (e: Expr)
        requires
            base + bits <= usize::MAX,
            bits <= 64,
        ensures
            forall|cur: Seq<Felt>, next: Seq<Felt>| #[trigger] e.value(cur, next) == recompose_val(cur, base as nat, bits as nat),
            forall|w: nat| w >= base + bits ==> #[trigger] e.reads_below(w),
    {
        let two = Felt::new(2);
        let mut acc = Expr::constant(Felt::zero());
        let mut weight = Felt::one();
        let mut k: usize = 0;
        proof {
            vstd::arithmetic::div_mod::lemma_small_mod(2, p());
            vstd::arithmetic::div_mod::lemma_small_mod(1, p());
        }
        while k < bits
            invariant
                k <= bits,
                base + bits <= usize::MAX,
                two.val() == 2,
                weight.val() == fpow(2, k as nat),
                forall|cur: Seq<Felt>, next: Seq<Felt>| #[trigger] acc.value(cur, next) == recompose_val(cur, base as nat, k as nat),
                forall|w: nat| w >= base + k ==> #[trigger] acc.reads_below(w),
            decreases bits - k,
        {
            let ghost prev = acc;
            acc = acc.add(Expr::cur(base + k).mul(Expr::constant(weight)));
            proof {
                assert forall|cur: Seq<Felt>, next: Seq<Felt>| #[trigger] acc.value(cur, next) == recompose_val(cur, base as nat, (k + 1) as nat) by {
                    reveal_with_fuel(Expr::value, 3);
                    assert(prev.value(cur, next) == recompose_val(cur, base as nat, k as nat));
                    lemma_fmul_comm_small(cell_val(cur, (base + k) as int), fpow(2, k as nat));
                }
                assert forall|w: nat| w >= base + k + 1 implies #[trigger] acc.reads_below(w) by {
                    reveal_with_fuel(Expr::reads_below, 3);
                    assert(prev.reads_below(w));
                }
            }
            weight = weight.mul(two);
            proof {
                lemma_fmul_comm_small(2, fpow(2, k as nat));
            }
            k = k + 1;
        }
        acc
    }

    /// A copy of the expression.
    pub fn duplicate(&self) -> (r: Expr)
        ensures
            r == *self,
        decreases self,
    {
        match self {
            Expr::Const(c) => Expr::Const(*c),
            Expr::Cur(i) => Expr::Cur(*i),
            Expr::Next(i) => Expr::Next(*i),
            Expr::Add(a, b) => Expr::Add(Box::new(a.duplicate()), Box::new(b.duplicate())),
            Expr::Sub(a, b) => Expr::Sub(Box::new(a.duplicate()), Box::new(b.duplicate())),
            Expr::Mul(a, b) => Expr::Mul(Box::new(a.duplicate()), Box::new(b.duplicate())),
            Expr::Xor(a, b) => Expr::Xor(Box::new(a.duplicate()), Box::new(b.duplicate())),
        }
    }

    /// The expression raised to a power, as that many factors of it times
    /// one.
    pub fn power(&self, k: u64) -> (r: Expr)
        ensures
            forall|cur: Seq<Felt>, next: Seq<Felt>| #[trigger] r.value(cur, next) == fpow(self.value(cur, next), k as nat),
            forall|w: nat| self.reads_below(w) ==> #[trigger] r.reads_below(w),
        decreases k,
    {
        if k == 0 {
            let one = Felt::one();
            let r = Expr::Const(one);
            proof {
                assert forall|cur: Seq<Felt>, next: Seq<Felt>| #[trigger] r.value(cur, next) == fpow(self.value(cur, next), k as nat) by {
                    assert(fpow(self.value(cur, next), 0) == 1);
                }
            }
            r
        } else {
            let rest = self.power(k - 1);
            let r = Expr::Mul(Box::new(self.duplicate()), Box::new(rest));
            proof {
                assert forall|cur: Seq<Felt>, next: Seq<Felt>| #[trigger] r.value(cur, next) == fpow(self.value(cur, next), k as nat) by {
                    assert(r.value(cur, next) == fmul(self.value(cur, next), rest.value(cur, next)));
                }
                assert forall|w: nat| self.reads_below(w) implies #[trigger] r.reads_below(w) by {
                    assert(rest.reads_below(w));
                }
            }
            r
        }
    }

    /// The rule that forces a cell of the current row to be a bit.
    pub fn boolean(col: usize) -> (e: Expr)
        ensures
            forall|cur: Seq<Felt>, next: Seq<Felt>| #[trigger] e.value(cur, next) == bool_val(cur, col as nat),
            forall|w: nat| w > col ==> #[trigger] e.reads_below(w),
    {
        let e = Expr::cur(col).mul(Expr::cur(col).sub(Expr::constant(Felt::one())));
        proof {
            reveal_with_fuel(Expr::value, 3);
            reveal_with_fuel(Expr::reads_below, 3);
        }
        e
    }
}

proof fn lemma_fmul_comm_small(a: nat, b: nat)
    ensures
        fmul(a, b) == fmul(b, a),
{
    vstd::arithmetic::mul::lemma_mul_is_commutative(a as int, b as int);
}

/// Powers of two below the word size are field powers of two as well.
pub proof fn lemma_fpow_two(k: nat)
    requires
        k <= 63,
    ensures
        fpow(2, k) == pow2(k),
        pow2(k) < p(),
    decreases k,
{
    vstd::arithmetic::power2::lemma_pow2_strictly_increases(k, 64);
    vstd::arithmetic::power2::lemma2_to64();
    vstd::arithmetic::power2::lemma2_to64_rest();
    if k < 63 {
        vstd::arithmetic::power2::lemma_pow2_strictly_increases(k, 63);
    }
    if k == 0 {
    } else {
        lemma_fpow_two((k - 1) as nat);
        vstd::arithmetic::power2::lemma_pow2_unfold(k);
        vstd::arithmetic::div_mod::lemma_small_mod(2 * pow2((k - 1) as nat), p());
    }
}

/// The bits of a number below two to the width recompose to the number.
pub proof fn lemma_recompose_bits(row: Seq<Felt>, base: nat, bits: nat, x: nat)
    requires
        bits <= 63,
        forall|j: nat| j < bits ==> #[trigger] cell_val(row, (base + j) as int) == bit_of(x, j),
    ensures
        recompose_val(row, base, bits) == x % pow2(bits),
    decreases bits,
{
    if bits == 0 {
        vstd::arithmetic::power2::lemma2_to64();
    } else {
        let k = (bits - 1) as nat;
        lemma_recompose_bits(row, base, k, x);
        lemma_fpow_two(k);
        lemma_fpow_two(bits);
        assert(cell_val(row, (base + k) as int) == bit_of(x, k));
        vstd::arithmetic::power2::lemma_pow2_unfold(bits);
        vstd::arithmetic::power2::lemma_pow2_pos(k);
        vstd::arithmetic::div_mod::lemma_mod_breakdown(x as int, pow2(k) as int, 2);
        let low = x % pow2(k);
        let b = bit_of(x, k);
        vstd::arithmetic::div_mod::lemma_mod_bound(x as int, pow2(k) as int);
        assert(b <= 1);
        assert(b * pow2(k) <= pow2(k)) by (nonlinear_arith)
            requires b <= 1;
        assert(b * pow2(k) == pow2(k) * b) by (nonlinear_arith);
        vstd::arithmetic::div_mod::lemma_small_mod(b * pow2(k), p());
        vstd::arithmetic::div_mod::lemma_small_mod(low + b * pow2(k), p());
    }
}

/// Writes the low bits of a value, one per column, from a base column on.
pub fn fill_bits(trace: &mut TraceTable, col: usize, row: usize, value: u64, bits: usize)
    requires
        col + bits <= old(trace).spec_width(),
        row < old(trace).spec_length(),
        bits <= 64,
    ensures
        final(trace).spec_width() == old(trace).spec_width(),
        final(trace).spec_length() == old(trace).spec_length(),
        forall|k: int| 0 <= k < bits ==> (#[trigger] final(trace).cell(col + k, row as int)).val() == bit_of(value as nat, k as nat),
        forall|c: int, r: int| (r != row || c < col || c >= col + bits) && 0 <= c < old(trace).spec_width()
            && 0 <= r < old(trace).spec_length() ==> #[trigger] final(trace).cell(c, r) == old(trace).cell(c, r),
{
    let mut k: usize = 0;
    while k < bits
        invariant
            k <= bits,
            bits <= 64,
            col + bits <= trace.spec_width(),
            row < trace.spec_length(),
            trace.spec_width() == old(trace).spec_width(),
            trace.spec_length() == old(trace).spec_length(),
            forall|j: int| 0 <= j < k ==> (#[trigger] trace.cell(col + j, row as int)).val() == bit_of(value as nat, j as nat),
            forall|c: int, r: int| (r != row || c < col || c >= col + bits) && 0 <= c < old(trace).spec_width()
                && 0 <= r < old(trace).spec_length() ==> #[trigger] trace.cell(c, r) == old(trace).cell(c, r),
        decreases bits - k,
    {
        let b = if k < 64 { (value >> k as u64) & 1 } else { 0 };
        proof {
            if k < 64 {
                vstd::bits::lemma_u64_shr_is_div(value, k as u64);
                let y = value >> k as u64;
                assert(y & 1 == y % 2) by (bit_vector);
            }
        }
        trace.set(col + k, row, Felt::new(b));
        proof {
            vstd::arithmetic::div_mod::lemma_small_mod(b as nat, p());
        }
        k = k + 1;
    }
}

/// The transitions after a prefix are single row rules, numbered from zero,
/// with the given degrees and values.
pub open spec fn single_rows_appended(
    prefix: Seq<Transition>,
    all: Seq<Transition>,
    count: nat,
    degree: spec_fn(nat) -> nat,
    rule: spec_fn(nat, Seq<Felt>) -> nat,
) -> bool {
    &&& all.len() == prefix.len() + count
    &&& forall|i: int| 0 <= i < prefix.len() ==> #[trigger] all[i] == prefix[i]
    &&& forall|i: int| prefix.len() <= i < all.len()
        ==> !(#[trigger] all[i]).exclude_last && !all[i].uses_challenges
            && all[i].degree == degree((i - prefix.len()) as nat)
    &&& forall|i: int, cur: Seq<Felt>, next: Seq<Felt>| prefix.len() <= i < all.len()
        ==> #[trigger] all[i].rule.value(cur, next) == rule((i - prefix.len()) as nat, cur)
}

/// Appending one more single row rule extends the numbered run.
pub proof fn lemma_append_rule(
    prefix: Seq<Transition>,
    mid: Seq<Transition>,
    all: Seq<Transition>,
    count: nat,
    degree: spec_fn(nat) -> nat,
    rule: spec_fn(nat, Seq<Felt>) -> nat,
    t: Transition,
)
    requires
        single_rows_appended(prefix, mid, count, degree, rule),
        all == mid.push(t),
        !t.exclude_last,
        !t.uses_challenges,
        t.degree == degree(count),
        forall|cur: Seq<Felt>, next: Seq<Felt>| #[trigger] t.rule.value(cur, next) == rule(count, cur),
    ensures
        single_rows_appended(prefix, all, count + 1, degree, rule),
{
    assert forall|i: int, cur: Seq<Felt>, next: Seq<Felt>| prefix.len() <= i < all.len()
        implies #[trigger] all[i].rule.value(cur, next) == rule((i - prefix.len()) as nat, cur) by {
        if i < mid.len() {
            assert(all[i] == mid[i]);
        } else {
            assert(all[i] == t);
            assert(t.rule.value(cur, next) == rule(count, cur));
        }
    }
    assert forall|i: int| prefix.len() <= i < all.len()
        implies !(#[trigger] all[i]).exclude_last && !all[i].uses_challenges
            && all[i].degree == degree((i - prefix.len()) as nat) by {
        if i < mid.len() {
            assert(all[i] == mid[i]);
        }
    }
    assert forall|i: int| 0 <= i < prefix.len() implies #[trigger] all[i] == prefix[i] by {
        assert(all[i] == mid[i]);
    }
}

/// The cells of a row read through the row view.
pub proof fn lemma_row_cells(trace: &TraceTable, r: int)
    ensures
        forall|c: int| 0 <= c < trace.spec_width() ==> #[trigger] cell_val(trace.spec_row(r), c) == trace.cell(c, r).val(),
{
}

/// A description whose rules are a numbered run of single row rules is met by
/// a trace on whose rows every rule of the run vanishes and whose base
/// boundaries hold.
pub proof fn lemma_rules_met(
    air: &Air,
    trace: &TraceTable,
    count: nat,
    degree: spec_fn(nat) -> nat,
    rule: spec_fn(nat, Seq<Felt>) -> nat,
)
    requires
        single_rows_appended(Seq::empty(), air.spec_transitions(), count, degree, rule),
        forall|r: int, k: nat| 0 <= r < air.spec_length() && k < count ==> #[trigger] rule(k, trace.spec_row(r)) == 0,
        forall|j: int| 0 <= j < air.spec_boundaries().len() ==> #[trigger] air.boundary_ok(trace, j),
    ensures
        air.spec_satisfied(trace),
{
    assert forall|r: int, i: int| 0 <= r < air.spec_length() && 0 <= i < air.spec_transitions().len()
        implies #[trigger] air.transition_ok(trace, r, i) by {
        let n = air.spec_length() as int;
        let next = trace.spec_row((r + 1) % n);
        assert(air.spec_transitions()[i].rule.value(trace.spec_row(r), next) == rule(i as nat, trace.spec_row(r)));
        assert(rule(i as nat, trace.spec_row(r)) == 0);
    }
}

/// Two descriptions made of the same numbered run of single row rules over
/// the same length, with no boundaries, are met by the same traces.
pub proof fn lemma_same_rules_satisfied(
    a: &Air,
    b: &Air,
    trace: &TraceTable,
    count: nat,
    degree: spec_fn(nat) -> nat,
    rule: spec_fn(nat, Seq<Felt>) -> nat,
)
    requires
        single_rows_appended(Seq::empty(), a.spec_transitions(), count, degree, rule),
        single_rows_appended(Seq::empty(), b.spec_transitions(), count, degree, rule),
        a.spec_length() == b.spec_length(),
        a.spec_boundaries().len() == 0,
        b.spec_boundaries().len() == 0,
    ensures
        a.spec_satisfied(trace) == b.spec_satisfied(trace),
{
    assert forall|r: int, i: int| 0 <= r < a.spec_length() && 0 <= i < count
        implies #[trigger] a.transition_ok(trace, r, i) == b.transition_ok(trace, r, i) by {
        let n = a.spec_length() as int;
        let next = trace.spec_row((r + 1) % n);
        assert(a.spec_transitions()[i].rule.value(trace.spec_row(r), next) == rule(i as nat, trace.spec_row(r)));
        assert(b.spec_transitions()[i].rule.value(trace.spec_row(r), next) == rule(i as nat, trace.spec_row(r)));
    }
    if a.spec_satisfied(trace) {
        assert forall|r: int, i: int| 0 <= r < b.spec_length() && 0 <= i < b.spec_transitions().len()
            implies #[trigger] b.transition_ok(trace, r, i) by {
            assert(a.transition_ok(trace, r, i));
        }
    }
    if b.spec_satisfied(trace) {
        assert forall|r: int, i: int| 0 <= r < a.spec_length() && 0 <= i < a.spec_transitions().len()
            implies #[trigger] a.transition_ok(trace, r, i) by {
            assert(b.transition_ok(trace, r, i));
        }
    }
}

/// A cell holding a bit meets the bit rule.
pub proof fn lemma_bit_rule(row: Seq<Felt>, col: nat)
    requires
        cell_val(row, col as int) <= 1,
    ensures
        bool_val(row, col) == 0,
{
    let b = cell_val(row, col as int);
    vstd::arithmetic::div_mod::lemma_small_mod(0, p());
    if b == 0 {
        assert(fmul(0, fsub(0, 1)) == 0);
    } else {
        assert(fsub(1, 1) == 0);
        assert(fmul(1, 0) == 0);
    }
}

/// Two rows hold the same cells in the columns from lo up to hi.
pub open spec fn rows_agree(a: Seq<Felt>, b: Seq<Felt>, lo: nat, hi: nat) -> bool {
    forall|c: int| lo <= c < hi ==> #[trigger] cell_val(a, c) == cell_val(b, c)
}

/// Writing one row leaves the other rows as they were, and in that row the
/// columns outside the written range.
pub proof fn lemma_row_frame(before: &TraceTable, after: &TraceTable, row: int, lo: int, hi: int, r: int)
    requires
        after.spec_width() == before.spec_width(),
        after.spec_length() == before.spec_length(),
        forall|c: int, rr: int| (rr != row || c < lo || c >= hi) && 0 <= c < before.spec_width()
            && 0 <= rr < before.spec_length() ==> #[trigger] after.cell(c, rr) == before.cell(c, rr),
        0 <= r < before.spec_length(),
    ensures
        r != row ==> after.spec_row(r) == before.spec_row(r),
        forall|l2: nat, h2: nat| (h2 <= lo || l2 >= hi) && h2 <= before.spec_width()
            ==> #[trigger] rows_agree(after.spec_row(r), before.spec_row(r), l2, h2),
{
    if r != row {
        assert(after.spec_row(r) =~= before.spec_row(r));
    }
}

/// The transitions after a prefix are rules between a row and the next one,
/// numbered from zero, all with the same exemption of the last row, with the
/// given degrees and values.
pub open spec fn transitions_appended(
    prefix: Seq<Transition>,
    all: Seq<Transition>,
    count: nat,
    exclude_last: bool,
    degree: spec_fn(nat) -> nat,
    rule: spec_fn(nat, Seq<Felt>, Seq<Felt>) -> nat,
) -> bool {
    &&& all.len() == prefix.len() + count
    &&& forall|i: int| 0 <= i < prefix.len() ==> #[trigger] all[i] == prefix[i]
    &&& forall|i: int| prefix.len() <= i < all.len()
        ==> (#[trigger] all[i]).exclude_last == exclude_last && !all[i].uses_challenges
            && all[i].degree == degree((i - prefix.len()) as nat)
    &&& forall|i: int, cur: Seq<Felt>, next: Seq<Felt>| prefix.len() <= i < all.len()
        ==> #[trigger] all[i].rule.value(cur, next) == rule((i - prefix.len()) as nat, cur, next)
}

/// Appending one more rule extends the numbered run.
pub proof fn lemma_append_transition(
    prefix: Seq<Transition>,
    mid: Seq<Transition>,
    all: Seq<Transition>,
    count: nat,
    exclude_last: bool,
    degree: spec_fn(nat) -> nat,
    rule: spec_fn(nat, Seq<Felt>, Seq<Felt>) -> nat,
    t: Transition,
)
    requires
        transitions_appended(prefix, mid, count, exclude_last, degree, rule),
        all == mid.push(t),
        t.exclude_last == exclude_last,
        !t.uses_challenges,
        t.degree == degree(count),
        forall|cur: Seq<Felt>, next: Seq<Felt>| #[trigger] t.rule.value(cur, next) == rule(count, cur, next),
    ensures
        transitions_appended(prefix, all, count + 1, exclude_last, degree, rule),
{
    assert forall|i: int, cur: Seq<Felt>, next: Seq<Felt>| prefix.len() <= i < all.len()
        implies #[trigger] all[i].rule.value(cur, next) == rule((i - prefix.len()) as nat, cur, next) by {
        if i < mid.len() {
            assert(all[i] == mid[i]);
        } else {
            assert(all[i] == t);
            assert(t.rule.value(cur, next) == rule(count, cur, next));
        }
    }
    assert forall|i: int| prefix.len() <= i < all.len()
        implies (#[trigger] all[i]).exclude_last == exclude_last && !all[i].uses_challenges
            && all[i].degree == degree((i - prefix.len()) as nat) by {
        if i < mid.len() {
            assert(all[i] == mid[i]);
        }
    }
    assert forall|i: int| 0 <= i < prefix.len() implies #[trigger] all[i] == prefix[i] by {
        assert(all[i] == mid[i]);
    }
}
} // verus!
