//! Row-major integer tensors with their element-wise, comparison and
//! reduction operations.
use vstd::prelude::*;
use vstd::relations::{sorted_by, total_ordering};

verus! {

broadcast use vstd::seq_lib::group_to_multiset_ensures;

/// Number of elements of a tensor of the given shape.
pub open spec fn numel(shape: Seq<usize>) -> nat
    decreases shape.len(),
{
    if shape.len() == 0 {
        1
    } else {
        numel(shape.drop_last()) * (shape.last() as nat)
    }
}

proof fn lemma_numel_zero(shape: Seq<usize>)
    ensures
        numel(shape) == 0 <==> exists|k: int| 0 <= k < shape.len() && shape[k] == 0,
    decreases shape.len(),
{
    if shape.len() > 0 {
        let init = shape.drop_last();
        lemma_numel_zero(init);
        assert(numel(shape) == numel(init) * (shape.last() as nat));
        if numel(shape) == 0 {
            assert(numel(init) == 0 || shape.last() == 0) by (nonlinear_arith)
                requires
                    numel(shape) == numel(init) * (shape.last() as nat),
                    numel(shape) == 0,
            ;
            if numel(init) == 0 {
                let k = choose|k: int| 0 <= k < init.len() && init[k] == 0;
                assert(shape[k] == 0);
            } else {
                assert(shape[shape.len() - 1] == 0);
            }
        } else {
            assert forall|k: int| 0 <= k < shape.len() implies shape[k] != 0 by {
                if k < shape.len() - 1 {
                    assert(init[k] == shape[k]);
                    assert(numel(init) != 0) by (nonlinear_arith)
                        requires
                            numel(shape) == numel(init) * (shape.last() as nat),
                            numel(shape) != 0,
                    ;
                } else {
                    assert(shape.last() != 0) by (nonlinear_arith)
                        requires
                            numel(shape) == numel(init) * (shape.last() as nat),
                            numel(shape) != 0,
                    ;
                }
            }
        }
    }
}

proof fn lemma_numel_small(a: usize, b: usize)
    ensures
        numel(seq![a]) == a,
        numel(seq![a, b]) == a * b,
{
    let one = seq![a];
    let two = seq![a, b];
    assert(one.drop_last() =~= Seq::<usize>::empty());
    assert(two.drop_last() =~= one);
    assert(numel(Seq::<usize>::empty()) == 1);
    assert(one.last() == a);
    assert(two.last() == b);
    assert(numel(one) == numel(one.drop_last()) * (one.last() as nat));
    assert(numel(two) == numel(two.drop_last()) * (two.last() as nat));
}

/// A one-dimensional shape holds as many elements as its one dimension.
pub proof fn lemma_numel_single(a: usize)
    ensures
        numel(seq![a]) == a,
{
    lemma_numel_small(a, 0);
}

/// Without zero dimensions, a prefix of a shape holds at most as many
/// elements as the whole shape.
proof fn lemma_numel_prefix_le(shape: Seq<usize>, k: int)
    requires
        0 <= k <= shape.len(),
        forall|j: int| 0 <= j < shape.len() ==> shape[j] != 0,
    ensures
        numel(shape.take(k)) <= numel(shape),
    decreases shape.len(),
{
    if k < shape.len() {
        let init = shape.drop_last();
        lemma_numel_prefix_le(init, k);
        assert(init.take(k) =~= shape.take(k));
        let a = numel(init);
        let b = shape.last() as nat;
        assert(a <= a * b) by (nonlinear_arith)
            requires
                b >= 1,
        ;
    } else {
        assert(shape.take(k) =~= shape);
    }
}

/// Computes the element count of a shape, or `None` where it exceeds `usize`.
pub fn checked_numel(shape: &Vec<usize>) -> (r: Option<usize>)
    ensures
        r is Some <==> numel(shape@) <= usize::MAX,
        r matches Some(n) ==> n == numel(shape@),
{
    let mut j: usize = 0;
    while j < shape.len()
        invariant
            j <= shape.len(),
            forall|k: int| 0 <= k < j ==> shape@[k] != 0,
        decreases shape.len() - j,
    {
        if shape[j] == 0 {
            proof {
                assert(shape@[j as int] == 0);
                lemma_numel_zero(shape@);
            }
            return Some(0);
        }
        j = j + 1;
    }
    let mut acc: usize = 1;
    let mut i: usize = 0;
    while i < shape.len()
        invariant
            i <= shape.len(),
            forall|k: int| 0 <= k < shape.len() ==> shape@[k] != 0,
            acc == numel(shape@.take(i as int)),
        decreases shape.len() - i,
    {
        proof {
            assert(shape@.take(i + 1).drop_last() =~= shape@.take(i as int));
        }
        match acc.checked_mul(shape[i]) {
            Some(next) => {
                acc = next;
            },
            None => {
                proof {
                    lemma_numel_prefix_le(shape@, i + 1);
                }
                return None;
            },
        }
        i = i + 1;
    }
    proof {
        assert(shape@.take(i as int) =~= shape@);
    }
    Some(acc)
}

/// Integer division rounded toward zero.
pub open spec fn div_trunc(x: int, y: int) -> int {
    let q = abs(x) / abs(y);
    if (x < 0) != (y < 0) {
        -q
    } else {
        q
    }
}

/// Remainder of floored division: zero or of the sign of the divisor.
pub open spec fn mod_floor(x: int, y: int) -> int {
    let m = x % y;
    if y < 0 && m != 0 {
        m + y
    } else {
        m
    }
}

/// Absolute value.
pub open spec fn abs(x: int) -> int {
    if x < 0 {
        -x
    } else {
        x
    }
}

/// -1, 0 or 1, as `x` is negative, zero or positive.
pub open spec fn sign_of(x: int) -> int {
    if x > 0 {
        1
    } else if x < 0 {
        -1
    } else {
        0
    }
}

/// `x` is a value of `i64`.
pub open spec fn fits_i64(x: int) -> bool {
    i64::MIN <= x <= i64::MAX
}

/// Whether `x / y` rounded toward zero is defined and fits in `i64`.
pub open spec fn div_ok(x: i64, y: i64) -> bool {
    y != 0 && !(x == i64::MIN && y == -1)
}

#[derive(Clone, Copy)]
enum ArithOp {
    Add,
    Sub,
    Mul,
    Div,
    Rem,
    Max,
    Min,
}

spec fn arith(op: ArithOp, x: i64, y: i64) -> int {
    match op {
        ArithOp::Add => x + y,
        ArithOp::Sub => x - y,
        ArithOp::Mul => x * y,
        ArithOp::Div => div_trunc(x as int, y as int),
        ArithOp::Rem => mod_floor(x as int, y as int),
        ArithOp::Max => if x >= y { x as int } else { y as int },
        ArithOp::Min => if x <= y { x as int } else { y as int },
    }
}

spec fn arith_ok(op: ArithOp, x: i64, y: i64) -> bool {
    match op {
        ArithOp::Add => fits_i64(x + y),
        ArithOp::Sub => fits_i64(x - y),
        ArithOp::Mul => fits_i64(x * y),
        ArithOp::Div => div_ok(x, y),
        ArithOp::Rem => y != 0,
        _ => true,
    }
}

proof fn lemma_div_trunc_fits(x: i64, y: i64)
    requires
        div_ok(x, y),
    ensures
        fits_i64(div_trunc(x as int, y as int)),
        x.checked_div(y) == Some(div_trunc(x as int, y as int) as i64),
{
    let ax = abs(x as int);
    let ay = abs(y as int);
    let q = ax / ay;
    assert(0 <= q <= ax) by (nonlinear_arith)
        requires
            ax >= 0,
            ay >= 1,
            q == ax / ay,
    ;
    if x == i64::MIN && y < 0 {
        assert(ay >= 2);
        assert(q <= ax / 2) by (nonlinear_arith)
            requires
                ax >= 0,
                ay >= 2,
                q == ax / ay,
        ;
    }
}

fn apply_arith(op: ArithOp, x: i64, y: i64) -> (r: i64)
    requires
        arith_ok(op, x, y),
    ensures
        r == arith(op, x, y),
{
    match op {
        ArithOp::Add => x + y,
        ArithOp::Sub => x - y,
        ArithOp::Mul => x * y,
        ArithOp::Div => {
            proof {
                lemma_div_trunc_fits(x, y);
            }
            x.checked_div(y).unwrap()
        },
        ArithOp::Rem => {
            if y == -1 {
                0
            } else {
                proof {
                    assert(0 <= x % y < abs(y as int)) by (nonlinear_arith)
                        requires
                            y != 0,
                    ;
                }
                let m = x.checked_rem_euclid(y).unwrap();
                if y < 0 && m != 0 {
                    m + y
                } else {
                    m
                }
            }
        },
        ArithOp::Max => if x >= y { x } else { y },
        ArithOp::Min => if x <= y { x } else { y },
    }
}

#[derive(Clone, Copy)]
enum CmpOp {
    Eq,
    Ne,
    Gt,
    Ge,
    Lt,
    Le,
}

spec fn cmp(op: CmpOp, x: i64, y: i64) -> bool {
    match op {
        CmpOp::Eq => x == y,
        CmpOp::Ne => x != y,
        CmpOp::Gt => x > y,
        CmpOp::Ge => x >= y,
        CmpOp::Lt => x < y,
        CmpOp::Le => x <= y,
    }
}

fn apply_cmp(op: CmpOp, x: i64, y: i64) -> (r: bool)
    ensures
        r == cmp(op, x, y),
{
    match op {
        CmpOp::Eq => x == y,
        CmpOp::Ne => x != y,
        CmpOp::Gt => x > y,
        CmpOp::Ge => x >= y,
        CmpOp::Lt => x < y,
        CmpOp::Le => x <= y,
    }
}

fn copy_dims(shape: &Vec<usize>) -> (r: Vec<usize>)
    ensures
        r@ == shape@,
{
    let mut r: Vec<usize> = Vec::new();
    let mut i: usize = 0;
    while i < shape.len()
        invariant
            i <= shape.len(),
            r@ == shape@.take(i as int),
        decreases shape.len() - i,
    {
        r.push(shape[i]);
        i = i + 1;
        proof {
            assert(r@ =~= shape@.take(i as int));
        }
    }
    proof {
        assert(shape@.take(i as int) =~= shape@);
    }
    r
}

/// An integer tensor: a shape and its elements in row-major order.
///
/// Operations between two tensors (`add`, `greater`, `mask_where`, ...) take
/// tensors of one shape: a dimension of size one is not broadcast against a
/// larger one, and callers expand it first.
pub struct Tensor {
    shape: Vec<usize>,
    data: Vec<i64>,
}

/// A boolean tensor, as produced by comparisons and consumed by masks.
pub struct BoolTensor {
    shape: Vec<usize>,
    data: Vec<bool>,
}

impl BoolTensor {
    /// The size of each dimension.
    pub closed spec fn dims(&self) -> Seq<usize> {
        self.shape@
    }

    /// The elements in row-major order.
    pub closed spec fn values(&self) -> Seq<bool> {
        self.data@
    }

    /// The element count agrees with the shape.
    pub open spec fn wf(&self) -> bool {
        self.values().len() == numel(self.dims())
    }

    /// Builds a boolean tensor from a shape and its row-major elements.
    pub fn from_values(shape: Vec<usize>, data: Vec<bool>) -> (r: Option<BoolTensor>)
        ensures
            r is Some <==> data@.len() == numel(shape@),
            r matches Some(t) ==> t.dims() == shape@ && t.values() == data@,
    {
        let len = data.len();
        match checked_numel(&shape) {
            Some(n) => {
                if n == len {
                    Some(BoolTensor { shape, data })
                } else {
                    None
                }
            },
            None => None,
        }
    }

    /// The size of each dimension.
    pub fn shape(&self) -> (r: Vec<usize>)
        ensures
            r@ == self.dims(),
    {
        copy_dims(&self.shape)
    }

    /// The elements in row-major order.
    pub fn to_values(&self) -> (r: Vec<bool>)
        ensures
            r@ == self.values(),
    {
        let mut r: Vec<bool> = Vec::new();
        let mut i: usize = 0;
        while i < self.data.len()
            invariant
                i <= self.data.len(),
                r@ == self.data@.take(i as int),
            decreases self.data.len() - i,
        {
            r.push(self.data[i]);
            i = i + 1;
            proof {
                assert(r@ =~= self.data@.take(i as int));
            }
        }
        proof {
            assert(self.data@.take(i as int) =~= self.data@);
        }
        r
    }
}

impl Tensor {
    /// The size of each dimension.
    pub closed spec fn dims(&self) -> Seq<usize> {
        self.shape@
    }

    /// The elements in row-major order.
    pub closed spec fn values(&self) -> Seq<i64> {
        self.data@
    }

    /// The element count agrees with the shape.
    pub open spec fn wf(&self) -> bool {
        self.values().len() == numel(self.dims())
    }

    /// Builds a tensor from a shape and its row-major elements.
    pub fn from_values(shape: Vec<usize>, data: Vec<i64>) -> (r: Option<Tensor>)
        ensures
            r is Some <==> data@.len() == numel(shape@),
            r matches Some(t) ==> t.dims() == shape@ && t.values() == data@,
    {
        let len = data.len();
        match checked_numel(&shape) {
            Some(n) => {
                if n == len {
                    Some(Tensor { shape, data })
                } else {
                    None
                }
            },
            None => None,
        }
    }

    /// The size of each dimension.
    pub fn shape(&self) -> (r: Vec<usize>)
        ensures
            r@ == self.dims(),
    {
        copy_dims(&self.shape)
    }

    /// The size of dimension `i`.
    pub fn dim(&self, i: usize) -> (r: usize)
        requires
            i < self.dims().len(),
        ensures
            r == self.dims()[i as int],
    {
        self.shape[i]
    }

    /// The elements in row-major order.
    pub fn to_values(&self) -> (r: Vec<i64>)
        ensures
            r@ == self.values(),
    {
        let mut r: Vec<i64> = Vec::new();
        let mut i: usize = 0;
        while i < self.data.len()
            invariant
                i <= self.data.len(),
                r@ == self.data@.take(i as int),
            decreases self.data.len() - i,
        {
            r.push(self.data[i]);
            i = i + 1;
            proof {
                assert(r@ =~= self.data@.take(i as int));
            }
        }
        proof {
            assert(self.data@.take(i as int) =~= self.data@);
        }
        r
    }

    fn zip_arith(&self, other: &Tensor, op: ArithOp) -> (r: Tensor)
        requires
            self.values().len() == other.values().len(),
            forall|i: int|
                0 <= i < self.values().len() ==> arith_ok(op, self.values()[i], other.values()[i]),
        ensures
            r.dims() == self.dims(),
            r.values().len() == self.values().len(),
            forall|i: int|
                0 <= i < r.values().len() ==> r.values()[i] == arith(
                    op,
                    self.values()[i],
                    other.values()[i],
                ),
    {
        let mut data: Vec<i64> = Vec::new();
        let mut i: usize = 0;
        while i < self.data.len()
            invariant
                i <= self.data.len(),
                self.data.len() == other.data.len(),
                forall|k: int|
                    0 <= k < self.data.len() ==> arith_ok(op, self.data@[k], other.data@[k]),
                data@.len() == i,
                forall|k: int| 0 <= k < i ==> data@[k] == arith(op, self.data@[k], other.data@[k]),
            decreases self.data.len() - i,
        {
            data.push(apply_arith(op, self.data[i], other.data[i]));
            i = i + 1;
        }
        Tensor { shape: copy_dims(&self.shape), data }
    }

    fn map_arith(&self, s: i64, op: ArithOp) -> (r: Tensor)
        requires
            forall|i: int| 0 <= i < self.values().len() ==> arith_ok(op, self.values()[i], s),
        ensures
            r.dims() == self.dims(),
            r.values().len() == self.values().len(),
            forall|i: int|
                0 <= i < r.values().len() ==> r.values()[i] == arith(op, self.values()[i], s),
    {
        let mut data: Vec<i64> = Vec::new();
        let mut i: usize = 0;
        proof {
            assert(self.values() == self.data@);
        }
        while i < self.data.len()
            invariant
                i <= self.data.len(),
                forall|k: int| 0 <= k < self.data.len() ==> arith_ok(op, self.data@[k], s),
                data@.len() == i,
                forall|k: int| 0 <= k < i ==> data@[k] == arith(op, self.data@[k], s),
            decreases self.data.len() - i,
        {
            data.push(apply_arith(op, self.data[i], s));
            i = i + 1;
        }
        Tensor { shape: copy_dims(&self.shape), data }
    }

    fn zip_cmp(&self, other: &Tensor, op: CmpOp) -> (r: BoolTensor)
        requires
            self.values().len() == other.values().len(),
        ensures
            r.dims() == self.dims(),
            r.values().len() == self.values().len(),
            forall|i: int|
                0 <= i < r.values().len() ==> r.values()[i] == cmp(
                    op,
                    self.values()[i],
                    other.values()[i],
                ),
    {
        let mut data: Vec<bool> = Vec::new();
        let mut i: usize = 0;
        while i < self.data.len()
            invariant
                i <= self.data.len(),
                self.data.len() == other.data.len(),
                data@.len() == i,
                forall|k: int| 0 <= k < i ==> data@[k] == cmp(op, self.data@[k], other.data@[k]),
            decreases self.data.len() - i,
        {
            data.push(apply_cmp(op, self.data[i], other.data[i]));
            i = i + 1;
        }
        BoolTensor { shape: copy_dims(&self.shape), data }
    }

    fn map_cmp(&self, s: i64, op: CmpOp) -> (r: BoolTensor)
        ensures
            r.dims() == self.dims(),
            r.values().len() == self.values().len(),
            forall|i: int| 0 <= i < r.values().len() ==> r.values()[i] == cmp(op, self.values()[i], s),
    {
        let mut data: Vec<bool> = Vec::new();
        let mut i: usize = 0;
        while i < self.data.len()
            invariant
                i <= self.data.len(),
                data@.len() == i,
                forall|k: int| 0 <= k < i ==> data@[k] == cmp(op, self.data@[k], s),
            decreases self.data.len() - i,
        {
            data.push(apply_cmp(op, self.data[i], s));
            i = i + 1;
        }
        BoolTensor { shape: copy_dims(&self.shape), data }
    }
}

impl Tensor {
    /// Element-wise sum of two tensors of one shape.
    pub fn add(self, other: Tensor) -> (r: Tensor)
        requires
            self.wf(),
            other.wf(),
            other.dims() == self.dims(),
            forall|i: int| 0 <= i < self.values().len() ==> fits_i64(self.values()[i] + other.values()[i]),
        ensures
            r.dims() == self.dims(),
            r.values().len() == self.values().len(),
            forall|i: int| 0 <= i < r.values().len() ==> r.values()[i] == self.values()[i] + other.values()[i],
    {
        self.zip_arith(&other, ArithOp::Add)
    }

    /// Adds a scalar to every element.
    pub fn add_scalar(self, other: i64) -> (r: Tensor)
        requires
            self.wf(),
            forall|i: int| 0 <= i < self.values().len() ==> fits_i64(self.values()[i] + other),
        ensures
            r.dims() == self.dims(),
            r.values().len() == self.values().len(),
            forall|i: int| 0 <= i < r.values().len() ==> r.values()[i] == self.values()[i] + other,
    {
        self.map_arith(other, ArithOp::Add)
    }

    /// Element-wise difference of two tensors of one shape.
    pub fn sub(self, other: Tensor) -> (r: Tensor)
        requires
            self.wf(),
            other.wf(),
            other.dims() == self.dims(),
            forall|i: int| 0 <= i < self.values().len() ==> fits_i64(self.values()[i] - other.values()[i]),
        ensures
            r.dims() == self.dims(),
            r.values().len() == self.values().len(),
            forall|i: int| 0 <= i < r.values().len() ==> r.values()[i] == self.values()[i] - other.values()[i],
    {
        self.zip_arith(&other, ArithOp::Sub)
    }

    /// Subtracts a scalar from every element.
    pub fn sub_scalar(self, other: i64) -> (r: Tensor)
        requires
            self.wf(),
            forall|i: int| 0 <= i < self.values().len() ==> fits_i64(self.values()[i] - other),
        ensures
            r.dims() == self.dims(),
            r.values().len() == self.values().len(),
            forall|i: int| 0 <= i < r.values().len() ==> r.values()[i] == self.values()[i] - other,
    {
        self.map_arith(other, ArithOp::Sub)
    }

    /// Element-wise quotient, rounded toward zero.
    pub fn div(self, other: Tensor) -> (r: Tensor)
        requires
            self.wf(),
            other.wf(),
            other.dims() == self.dims(),
            forall|i: int| 0 <= i < self.values().len() ==> div_ok(self.values()[i], other.values()[i]),
        ensures
            r.dims() == self.dims(),
            r.values().len() == self.values().len(),
            forall|i: int| 0 <= i < r.values().len() ==> r.values()[i] == div_trunc(self.values()[i] as int, other.values()[i] as int),
    {
        self.zip_arith(&other, ArithOp::Div)
    }

    /// Divides every element by a scalar, rounding toward zero.
    pub fn div_scalar(self, other: i64) -> (r: Tensor)
        requires
            self.wf(),
            forall|i: int| 0 <= i < self.values().len() ==> div_ok(self.values()[i], other),
        ensures
            r.dims() == self.dims(),
            r.values().len() == self.values().len(),
            forall|i: int| 0 <= i < r.values().len() ==> r.values()[i] == div_trunc(self.values()[i] as int, other as int),
    {
        self.map_arith(other, ArithOp::Div)
    }

    /// Element-wise remainder of floored division: zero or of the divisor's sign.
    pub fn remainder(self, other: Tensor) -> (r: Tensor)
        requires
            self.wf(),
            other.wf(),
            other.dims() == self.dims(),
            forall|i: int| 0 <= i < self.values().len() ==> other.values()[i] != 0,
        ensures
            r.dims() == self.dims(),
            r.values().len() == self.values().len(),
            forall|i: int| 0 <= i < r.values().len() ==> r.values()[i] == mod_floor(self.values()[i] as int, other.values()[i] as int),
    {
        self.zip_arith(&other, ArithOp::Rem)
    }

    /// Remainder of floored division of every element by a scalar.
    pub fn remainder_scalar(self, other: i64) -> (r: Tensor)
        requires
            self.wf(),
            other != 0,
        ensures
            r.dims() == self.dims(),
            r.values().len() == self.values().len(),
            forall|i: int| 0 <= i < r.values().len() ==> r.values()[i] == mod_floor(self.values()[i] as int, other as int),
    {
        self.map_arith(other, ArithOp::Rem)
    }

    /// Element-wise product of two tensors of one shape.
    pub fn mul(self, other: Tensor) -> (r: Tensor)
        requires
            self.wf(),
            other.wf(),
            other.dims() == self.dims(),
            forall|i: int| 0 <= i < self.values().len() ==> fits_i64(self.values()[i] * other.values()[i]),
        ensures
            r.dims() == self.dims(),
            r.values().len() == self.values().len(),
            forall|i: int| 0 <= i < r.values().len() ==> r.values()[i] == self.values()[i] * other.values()[i],
    {
        self.zip_arith(&other, ArithOp::Mul)
    }

    /// Multiplies every element by a scalar.
    pub fn mul_scalar(self, other: i64) -> (r: Tensor)
        requires
            self.wf(),
            forall|i: int| 0 <= i < self.values().len() ==> fits_i64(self.values()[i] * other),
        ensures
            r.dims() == self.dims(),
            r.values().len() == self.values().len(),
            forall|i: int| 0 <= i < r.values().len() ==> r.values()[i] == self.values()[i] * other,
    {
        self.map_arith(other, ArithOp::Mul)
    }

    /// Element-wise maximum of two tensors of one shape.
    pub fn max_pair(self, other: Tensor) -> (r: Tensor)
        requires
            self.wf(),
            other.wf(),
            other.dims() == self.dims(),
        ensures
            r.dims() == self.dims(),
            r.values().len() == self.values().len(),
            forall|i: int| 0 <= i < r.values().len() ==> r.values()[i] == if self.values()[i] >= other.values()[i] { self.values()[i] } else { other.values()[i] },
    {
        self.zip_arith(&other, ArithOp::Max)
    }

    /// Element-wise minimum of two tensors of one shape.
    pub fn min_pair(self, other: Tensor) -> (r: Tensor)
        requires
            self.wf(),
            other.wf(),
            other.dims() == self.dims(),
        ensures
            r.dims() == self.dims(),
            r.values().len() == self.values().len(),
            forall|i: int| 0 <= i < r.values().len() ==> r.values()[i] == if self.values()[i] <= other.values()[i] { self.values()[i] } else { other.values()[i] },
    {
        self.zip_arith(&other, ArithOp::Min)
    }

    /// Raises every element below `other` to `other`.
    pub fn clamp_min(self, other: i64) -> (r: Tensor)
        requires
            self.wf(),
        ensures
            r.dims() == self.dims(),
            r.values().len() == self.values().len(),
            forall|i: int| 0 <= i < r.values().len() ==> r.values()[i] == if self.values()[i] >= other { self.values()[i] } else { other },
    {
        self.map_arith(other, ArithOp::Max)
    }

    /// Lowers every element above `other` to `other`.
    pub fn clamp_max(self, other: i64) -> (r: Tensor)
        requires
            self.wf(),
        ensures
            r.dims() == self.dims(),
            r.values().len() == self.values().len(),
            forall|i: int| 0 <= i < r.values().len() ==> r.values()[i] == if self.values()[i] <= other { self.values()[i] } else { other },
    {
        self.map_arith(other, ArithOp::Min)
    }

    /// Marks the elements equal to a scalar.
    pub fn equal_elem(self, other: i64) -> (r: BoolTensor)
        requires
            self.wf(),
        ensures
            r.dims() == self.dims(),
            r.values().len() == self.values().len(),
            forall|i: int| 0 <= i < r.values().len() ==> r.values()[i] == (self.values()[i] == other),
    {
        self.map_cmp(other, CmpOp::Eq)
    }

    /// Marks the elements different from a scalar.
    pub fn not_equal_elem(self, other: i64) -> (r: BoolTensor)
        requires
            self.wf(),
        ensures
            r.dims() == self.dims(),
            r.values().len() == self.values().len(),
            forall|i: int| 0 <= i < r.values().len() ==> r.values()[i] == (self.values()[i] != other),
    {
        self.map_cmp(other, CmpOp::Ne)
    }

    /// Element-wise `x1 > x2`.
    pub fn greater(self, other: Tensor) -> (r: BoolTensor)
        requires
            self.wf(),
            other.wf(),
            other.dims() == self.dims(),
        ensures
            r.dims() == self.dims(),
            r.values().len() == self.values().len(),
            forall|i: int| 0 <= i < r.values().len() ==> r.values()[i] == (self.values()[i] > other.values()[i]),
    {
        self.zip_cmp(&other, CmpOp::Gt)
    }

    /// Element-wise `x1 >= x2`.
    pub fn greater_equal(self, other: Tensor) -> (r: BoolTensor)
        requires
            self.wf(),
            other.wf(),
            other.dims() == self.dims(),
        ensures
            r.dims() == self.dims(),
            r.values().len() == self.values().len(),
            forall|i: int| 0 <= i < r.values().len() ==> r.values()[i] == (self.values()[i] >= other.values()[i]),
    {
        self.zip_cmp(&other, CmpOp::Ge)
    }

    /// Element-wise `x1 < x2`.
    pub fn lower(self, other: Tensor) -> (r: BoolTensor)
        requires
            self.wf(),
            other.wf(),
            other.dims() == self.dims(),
        ensures
            r.dims() == self.dims(),
            r.values().len() == self.values().len(),
            forall|i: int| 0 <= i < r.values().len() ==> r.values()[i] == (self.values()[i] < other.values()[i]),
    {
        self.zip_cmp(&other, CmpOp::Lt)
    }

    /// Element-wise `x1 <= x2`.
    pub fn lower_equal(self, other: Tensor) -> (r: BoolTensor)
        requires
            self.wf(),
            other.wf(),
            other.dims() == self.dims(),
        ensures
            r.dims() == self.dims(),
            r.values().len() == self.values().len(),
            forall|i: int| 0 <= i < r.values().len() ==> r.values()[i] == (self.values()[i] <= other.values()[i]),
    {
        self.zip_cmp(&other, CmpOp::Le)
    }

    /// Marks the elements greater than a scalar.
    pub fn greater_elem(self, other: i64) -> (r: BoolTensor)
        requires
            self.wf(),
        ensures
            r.dims() == self.dims(),
            r.values().len() == self.values().len(),
            forall|i: int| 0 <= i < r.values().len() ==> r.values()[i] == (self.values()[i] > other),
    {
        self.map_cmp(other, CmpOp::Gt)
    }

    /// Marks the elements greater than or equal to a scalar.
    pub fn greater_equal_elem(self, other: i64) -> (r: BoolTensor)
        requires
            self.wf(),
        ensures
            r.dims() == self.dims(),
            r.values().len() == self.values().len(),
            forall|i: int| 0 <= i < r.values().len() ==> r.values()[i] == (self.values()[i] >= other),
    {
        self.map_cmp(other, CmpOp::Ge)
    }

    /// Marks the elements lower than a scalar.
    pub fn lower_elem(self, other: i64) -> (r: BoolTensor)
        requires
            self.wf(),
        ensures
            r.dims() == self.dims(),
            r.values().len() == self.values().len(),
            forall|i: int| 0 <= i < r.values().len() ==> r.values()[i] == (self.values()[i] < other),
    {
        self.map_cmp(other, CmpOp::Lt)
    }

    /// Marks the elements lower than or equal to a scalar.
    pub fn lower_equal_elem(self, other: i64) -> (r: BoolTensor)
        requires
            self.wf(),
        ensures
            r.dims() == self.dims(),
            r.values().len() == self.values().len(),
            forall|i: int| 0 <= i < r.values().len() ==> r.values()[i] == (self.values()[i] <= other),
    {
        self.map_cmp(other, CmpOp::Le)
    }
}

fn filled(shape: Vec<usize>, n: usize, v: i64) -> (r: Tensor)
    requires
        n == numel(shape@),
    ensures
        r.dims() == shape@,
        r.values() == Seq::new(n as nat, |i: int| v),
{
    let mut data: Vec<i64> = Vec::new();
    let mut i: usize = 0;
    while i < n
        invariant
            i <= n,
            data@ == Seq::new(i as nat, |k: int| v),
        decreases n - i,
    {
        data.push(v);
        i = i + 1;
        proof {
            assert(data@ =~= Seq::new(i as nat, |k: int| v));
        }
    }
    Tensor { shape, data }
}

impl Tensor {
    /// Negates every element.
    pub fn neg(self) -> (r: Tensor)
        requires
            self.wf(),
            forall|i: int| 0 <= i < self.values().len() ==> self.values()[i] != i64::MIN,
        ensures
            r.dims() == self.dims(),
            r.values().len() == self.values().len(),
            forall|i: int| 0 <= i < r.values().len() ==> r.values()[i] == -self.values()[i],
    {
        self.map_arith(-1, ArithOp::Mul)
    }

    /// The sign of every element: -1, 0 or 1.
    pub fn sign(self) -> (r: Tensor)
        requires
            self.wf(),
        ensures
            r.dims() == self.dims(),
            r.values().len() == self.values().len(),
            forall|i: int|
                0 <= i < r.values().len() ==> r.values()[i] == sign_of(self.values()[i] as int),
    {
        let mut data: Vec<i64> = Vec::new();
        let mut i: usize = 0;
        while i < self.data.len()
            invariant
                i <= self.data.len(),
                data@.len() == i,
                forall|k: int| 0 <= k < i ==> data@[k] == sign_of(self.data@[k] as int),
            decreases self.data.len() - i,
        {
            let x = self.data[i];
            let v: i64 = if x > 0 {
                1
            } else if x < 0 {
                -1
            } else {
                0
            };
            data.push(v);
            i = i + 1;
        }
        Tensor { shape: self.shape, data }
    }

    /// The absolute value of every element.
    pub fn abs(self) -> (r: Tensor)
        requires
            self.wf(),
            forall|i: int| 0 <= i < self.values().len() ==> self.values()[i] != i64::MIN,
        ensures
            r.dims() == self.dims(),
            r.values().len() == self.values().len(),
            forall|i: int| 0 <= i < r.values().len() ==> r.values()[i] == abs(self.values()[i] as int),
    {
        let mut data: Vec<i64> = Vec::new();
        let mut i: usize = 0;
        while i < self.data.len()
            invariant
                i <= self.data.len(),
                forall|k: int| 0 <= k < self.data.len() ==> self.data@[k] != i64::MIN,
                data@.len() == i,
                forall|k: int| 0 <= k < i ==> data@[k] == abs(self.data@[k] as int),
            decreases self.data.len() - i,
        {
            let x = self.data[i];
            let v: i64 = if x < 0 {
                -x
            } else {
                x
            };
            data.push(v);
            i = i + 1;
        }
        Tensor { shape: self.shape, data }
    }

    /// Limits every element to the range `[min, max]`.
    pub fn clamp(self, min: i64, max: i64) -> (r: Tensor)
        requires
            self.wf(),
            min <= max,
        ensures
            r.dims() == self.dims(),
            r.values().len() == self.values().len(),
            forall|i: int|
                0 <= i < r.values().len() ==> r.values()[i] == if self.values()[i] < min {
                    min
                } else if self.values()[i] > max {
                    max
                } else {
                    self.values()[i]
                },
    {
        let low = self.map_arith(min, ArithOp::Max);
        low.map_arith(max, ArithOp::Min)
    }

    /// A tensor of the given shape filled with zeros.
    pub fn zeros(shape: Vec<usize>) -> (r: Tensor)
        requires
            numel(shape@) <= usize::MAX,
        ensures
            r.wf(),
            r.dims() == shape@,
            forall|i: int| 0 <= i < r.values().len() ==> r.values()[i] == 0,
    {
        Tensor::full(shape, 0)
    }

    /// A tensor of the given shape filled with ones.
    pub fn ones(shape: Vec<usize>) -> (r: Tensor)
        requires
            numel(shape@) <= usize::MAX,
        ensures
            r.wf(),
            r.dims() == shape@,
            forall|i: int| 0 <= i < r.values().len() ==> r.values()[i] == 1,
    {
        Tensor::full(shape, 1)
    }

    /// A tensor of the given shape with every element equal to `fill_value`.
    pub fn full(shape: Vec<usize>, fill_value: i64) -> (r: Tensor)
        requires
            numel(shape@) <= usize::MAX,
        ensures
            r.wf(),
            r.dims() == shape@,
            forall|i: int| 0 <= i < r.values().len() ==> r.values()[i] == fill_value,
    {
        let n = checked_numel(&shape).unwrap();
        filled(shape, n, fill_value)
    }

    /// A tensor of zeros with the shape of `self`.
    pub fn zeros_like(&self) -> (r: Tensor)
        requires
            self.wf(),
        ensures
            r.wf(),
            r.dims() == self.dims(),
            forall|i: int| 0 <= i < r.values().len() ==> r.values()[i] == 0,
    {
        self.full_like(0)
    }

    /// A tensor of ones with the shape of `self`.
    pub fn ones_like(&self) -> (r: Tensor)
        requires
            self.wf(),
        ensures
            r.wf(),
            r.dims() == self.dims(),
            forall|i: int| 0 <= i < r.values().len() ==> r.values()[i] == 1,
    {
        self.full_like(1)
    }

    /// A tensor with the shape of `self` and every element equal to `fill_value`.
    pub fn full_like(&self, fill_value: i64) -> (r: Tensor)
        requires
            self.wf(),
        ensures
            r.wf(),
            r.dims() == self.dims(),
            forall|i: int| 0 <= i < r.values().len() ==> r.values()[i] == fill_value,
    {
        filled(copy_dims(&self.shape), self.data.len(), fill_value)
    }

    /// Takes the element of `value` where `mask` is true, and keeps the element
    /// of `self` elsewhere.
    pub fn mask_where(self, mask: BoolTensor, value: Tensor) -> (r: Tensor)
        requires
            self.wf(),
            mask.wf(),
            value.wf(),
            mask.dims() == self.dims(),
            value.dims() == self.dims(),
        ensures
            r.dims() == self.dims(),
            r.values().len() == self.values().len(),
            forall|i: int|
                0 <= i < r.values().len() ==> r.values()[i] == if mask.values()[i] {
                    value.values()[i]
                } else {
                    self.values()[i]
                },
    {
        let mut data: Vec<i64> = Vec::new();
        let mut i: usize = 0;
        while i < self.data.len()
            invariant
                i <= self.data.len(),
                mask.data.len() == self.data.len(),
                value.data.len() == self.data.len(),
                data@.len() == i,
                forall|k: int|
                    0 <= k < i ==> data@[k] == if mask.data@[k] {
                        value.data@[k]
                    } else {
                        self.data@[k]
                    },
            decreases self.data.len() - i,
        {
            if mask.data[i] {
                data.push(value.data[i]);
            } else {
                data.push(self.data[i]);
            }
            i = i + 1;
        }
        Tensor { shape: self.shape, data }
    }

    /// Sets the elements where `mask` is true to `value`.
    pub fn mask_fill(self, mask: BoolTensor, value: i64) -> (r: Tensor)
        requires
            self.wf(),
            mask.wf(),
            mask.dims() == self.dims(),
        ensures
            r.dims() == self.dims(),
            r.values().len() == self.values().len(),
            forall|i: int|
                0 <= i < r.values().len() ==> r.values()[i] == if mask.values()[i] {
                    value
                } else {
                    self.values()[i]
                },
    {
        let mut data: Vec<i64> = Vec::new();
        let mut i: usize = 0;
        while i < self.data.len()
            invariant
                i <= self.data.len(),
                mask.data.len() == self.data.len(),
                data@.len() == i,
                forall|k: int|
                    0 <= k < i ==> data@[k] == if mask.data@[k] {
                        value
                    } else {
                        self.data@[k]
                    },
            decreases self.data.len() - i,
        {
            if mask.data[i] {
                data.push(value);
            } else {
                data.push(self.data[i]);
            }
            i = i + 1;
        }
        Tensor { shape: self.shape, data }
    }

    /// Marks the non-zero elements.
    pub fn bool(self) -> (r: BoolTensor)
        requires
            self.wf(),
        ensures
            r.dims() == self.dims(),
            r.values().len() == self.values().len(),
            forall|i: int| 0 <= i < r.values().len() ==> r.values()[i] == (self.values()[i] != 0),
    {
        self.map_cmp(0, CmpOp::Ne)
    }

    /// Marks the elements that are not a number: an integer never is one.
    pub fn is_nan(&self) -> (r: BoolTensor)
        requires
            self.wf(),
        ensures
            r.dims() == self.dims(),
            r.values().len() == self.values().len(),
            forall|i: int| 0 <= i < r.values().len() ==> !r.values()[i],
    {
        self.zip_cmp(self, CmpOp::Ne)
    }

    /// A one-element tensor that tells whether any element is not a number.
    pub fn contains_nan(&self) -> (r: BoolTensor)
        requires
            self.wf(),
        ensures
            r.wf(),
            r.dims() == seq![1usize],
            r.values() == seq![false],
    {
        let mut found = false;
        let mut i: usize = 0;
        while i < self.data.len()
            invariant
                i <= self.data.len(),
                !found,
            decreases self.data.len() - i,
        {
            if self.data[i] != self.data[i] {
                found = true;
            }
            i = i + 1;
        }
        let r = BoolTensor { shape: vec![1usize], data: vec![found] };
        proof {
            assert(r.dims() =~= seq![1usize]);
            assert(r.values() =~= seq![false]);
            lemma_numel_small(1, 1);
        }
        r
    }
}

/// Column index minus row index of the element at flat index `i`, within the
/// matrix formed by the last two dimensions of `shape`.
pub open spec fn tri_offset(shape: Seq<usize>, i: int) -> int {
    let cols = shape[shape.len() - 1] as int;
    let rows = shape[shape.len() - 2] as int;
    i % cols - (i / cols) % rows
}

/// Sum of a sequence of elements.
pub open spec fn sum_of(s: Seq<i64>) -> int
    decreases s.len(),
{
    if s.len() == 0 {
        0
    } else {
        sum_of(s.drop_last()) + s.last()
    }
}

/// Product of a sequence of elements.
pub open spec fn prod_of(s: Seq<i64>) -> int
    decreases s.len(),
{
    if s.len() == 0 {
        1
    } else {
        prod_of(s.drop_last()) * s.last()
    }
}

/// Every running sum, from the first element on, fits in `i64`.
pub open spec fn sums_fit(s: Seq<i64>) -> bool {
    forall|k: int| 0 <= k <= s.len() ==> fits_i64(#[trigger] sum_of(s.take(k)))
}

/// Every running product, from the first element on, fits in `i64`.
pub open spec fn prods_fit(s: Seq<i64>) -> bool {
    forall|k: int| 0 <= k <= s.len() ==> fits_i64(#[trigger] prod_of(s.take(k)))
}

/// `m` is an element of `s` and no element of `s` exceeds it.
pub open spec fn is_max(s: Seq<i64>, m: int) -> bool {
    &&& exists|k: int| 0 <= k < s.len() && s[k] == m
    &&& forall|k: int| 0 <= k < s.len() ==> s[k] <= m
}

/// `m` is an element of `s` and no element of `s` is below it.
pub open spec fn is_min(s: Seq<i64>, m: int) -> bool {
    &&& exists|k: int| 0 <= k < s.len() && s[k] == m
    &&& forall|k: int| 0 <= k < s.len() ==> m <= s[k]
}

/// `m` is the absolute value of an element of `s`, and no absolute value exceeds it.
pub open spec fn is_max_abs(s: Seq<i64>, m: int) -> bool {
    &&& exists|k: int| 0 <= k < s.len() && abs(s[k] as int) == m
    &&& forall|k: int| 0 <= k < s.len() ==> abs(s[k] as int) <= m
}

fn scalar_tensor(v: i64) -> (r: Tensor)
    ensures
        r.wf(),
        r.dims() == seq![1usize],
        r.values() == seq![v],
{
    let r = Tensor { shape: vec![1usize], data: vec![v] };
    proof {
        lemma_numel_small(1, 1);
        assert(r.dims() =~= seq![1usize]);
        assert(r.values() =~= seq![v]);
    }
    r
}

impl Tensor {
    /// The sum of all elements, as a one-element tensor.
    pub fn sum(self) -> (r: Tensor)
        requires
            self.wf(),
            sums_fit(self.values()),
        ensures
            r.wf(),
            r.dims() == seq![1usize],
            r.values() == seq![sum_of(self.values()) as i64],
    {
        scalar_tensor(sum_seq(&self.data))
    }

    /// The product of all elements, as a one-element tensor.
    pub fn prod(self) -> (r: Tensor)
        requires
            self.wf(),
            prods_fit(self.values()),
        ensures
            r.wf(),
            r.dims() == seq![1usize],
            r.values() == seq![prod_of(self.values()) as i64],
    {
        scalar_tensor(prod_seq(&self.data))
    }

    /// The mean of all elements, rounded toward zero, as a one-element tensor.
    pub fn mean(self) -> (r: Tensor)
        requires
            self.wf(),
            self.values().len() > 0,
            sums_fit(self.values()),
        ensures
            r.wf(),
            r.dims() == seq![1usize],
            r.values() == seq![
                div_trunc(sum_of(self.values()), self.values().len() as int) as i64,
            ],
    {
        scalar_tensor(mean_seq(&self.data))
    }

    /// The largest element, as a one-element tensor.
    pub fn max(self) -> (r: Tensor)
        requires
            self.wf(),
            self.values().len() > 0,
        ensures
            r.wf(),
            r.dims() == seq![1usize],
            r.values().len() == 1,
            is_max(self.values(), r.values()[0] as int),
    {
        let i = arg_extreme(&self.data, true);
        scalar_tensor(self.data[i])
    }

    /// The smallest element, as a one-element tensor.
    pub fn min(self) -> (r: Tensor)
        requires
            self.wf(),
            self.values().len() > 0,
        ensures
            r.wf(),
            r.dims() == seq![1usize],
            r.values().len() == 1,
            is_min(self.values(), r.values()[0] as int),
    {
        let i = arg_extreme(&self.data, false);
        scalar_tensor(self.data[i])
    }

    /// The largest absolute value of an element, as a one-element tensor.
    pub fn max_abs(self) -> (r: Tensor)
        requires
            self.wf(),
            self.values().len() > 0,
            forall|i: int| 0 <= i < self.values().len() ==> self.values()[i] != i64::MIN,
        ensures
            r.wf(),
            r.dims() == seq![1usize],
            r.values().len() == 1,
            is_max_abs(self.values(), r.values()[0] as int),
    {
        let a = self.abs();
        proof {
            assert forall|k: int| 0 <= k < a.values().len() implies abs(
                self.values()[k] as int,
            ) == a.values()[k] by {}
        }
        let r = a.max();
        proof {
            let m = r.values()[0] as int;
            let k = choose|k: int| 0 <= k < a.values().len() && a.values()[k] == m;
            assert(abs(self.values()[k] as int) == m);
            assert forall|j: int| 0 <= j < self.values().len() implies abs(
                self.values()[j] as int,
            ) <= m by {
                assert(a.values()[j] <= m);
            }
        }
        r
    }

    /// The identity matrix of the given size.
    pub fn eye(size: usize) -> (r: Tensor)
        requires
            size * size <= usize::MAX,
        ensures
            r.wf(),
            r.dims() == seq![size, size],
            forall|i: int|
                0 <= i < r.values().len() ==> r.values()[i] == if i / (size as int) == i % (
                size as int) {
                    1i64
                } else {
                    0i64
                },
    {
        let n = size * size;
        let mut data: Vec<i64> = Vec::new();
        let mut i: usize = 0;
        while i < n
            invariant
                i <= n,
                n == size * size,
                data@.len() == i,
                forall|k: int|
                    0 <= k < i ==> data@[k] == if k / (size as int) == k % (size as int) {
                        1i64
                    } else {
                        0i64
                    },
            decreases n - i,
        {
            assert(size != 0) by (nonlinear_arith)
                requires
                    i < n,
                    n == size * size,
            ;
            if i / size == i % size {
                data.push(1);
            } else {
                data.push(0);
            }
            i = i + 1;
        }
        let r = Tensor { shape: vec![size, size], data };
        proof {
            lemma_numel_small(size, size);
            assert(r.dims() =~= seq![size, size]);
        }
        r
    }

    /// Keeps the elements on and above the `diagonal`-th diagonal of each matrix
    /// formed by the last two dimensions, and zeroes the others.
    pub fn triu(self, diagonal: i64) -> (r: Tensor)
        requires
            self.wf(),
            self.dims().len() >= 2,
        ensures
            r.dims() == self.dims(),
            r.values().len() == self.values().len(),
            forall|i: int|
                0 <= i < r.values().len() ==> r.values()[i] == if tri_offset(self.dims(), i)
                    >= diagonal {
                    self.values()[i]
                } else {
                    0i64
                },
    {
        self.tri(diagonal, true)
    }

    /// Keeps the elements on and below the `diagonal`-th diagonal of each matrix
    /// formed by the last two dimensions, and zeroes the others.
    pub fn tril(self, diagonal: i64) -> (r: Tensor)
        requires
            self.wf(),
            self.dims().len() >= 2,
        ensures
            r.dims() == self.dims(),
            r.values().len() == self.values().len(),
            forall|i: int|
                0 <= i < r.values().len() ==> r.values()[i] == if tri_offset(self.dims(), i)
                    <= diagonal {
                    self.values()[i]
                } else {
                    0i64
                },
    {
        self.tri(diagonal, false)
    }

    fn tri(self, diagonal: i64, upper: bool) -> (r: Tensor)
        requires
            self.wf(),
            self.dims().len() >= 2,
        ensures
            r.dims() == self.dims(),
            r.values().len() == self.values().len(),
            forall|i: int|
                0 <= i < r.values().len() ==> r.values()[i] == if (upper && tri_offset(
                    self.dims(),
                    i,
                ) >= diagonal) || (!upper && tri_offset(self.dims(), i) <= diagonal) {
                    self.values()[i]
                } else {
                    0i64
                },
    {
        let rank = self.shape.len();
        let cols = self.shape[rank - 1];
        let rows = self.shape[rank - 2];
        let n = self.data.len();
        if n > 0 {
            proof {
                lemma_numel_zero(self.shape@);
                assert(self.shape@[rank - 1] != 0);
                assert(self.shape@[rank - 2] != 0);
            }
        }
        let mut data: Vec<i64> = Vec::new();
        let mut i: usize = 0;
        while i < n
            invariant
                i <= n,
                n == self.data.len(),
                n > 0 ==> cols != 0 && rows != 0,
                rank == self.shape.len(),
                rank >= 2,
                cols == self.shape@[rank - 1],
                rows == self.shape@[rank - 2],
                data@.len() == i,
                forall|k: int|
                    0 <= k < i ==> data@[k] == if (upper && tri_offset(self.shape@, k) >= diagonal)
                        || (!upper && tri_offset(self.shape@, k) <= diagonal) {
                        self.data@[k]
                    } else {
                        0i64
                    },
            decreases n - i,
        {
            let col = (i % cols) as i128;
            let row = ((i / cols) % rows) as i128;
            let offset = col - row;
            let keep = if upper {
                offset >= diagonal as i128
            } else {
                offset <= diagonal as i128
            };
            if keep {
                data.push(self.data[i]);
            } else {
                data.push(0);
            }
            i = i + 1;
        }
        Tensor { shape: self.shape, data }
    }

    /// One-hot encodes a tensor of class indices: row `k` of the result has a
    /// one in column `self[k]` and zeros elsewhere.
    pub fn one_hot(self, num_classes: usize) -> (r: Tensor)
        requires
            self.wf(),
            self.dims().len() == 1,
            forall|i: int|
                0 <= i < self.values().len() ==> 0 <= #[trigger] self.values()[i] && self.values()[i]
                    < num_classes,
            self.values().len() * num_classes <= usize::MAX,
        ensures
            r.wf(),
            r.dims() == seq![self.values().len() as usize, num_classes],
            forall|k: int|
                0 <= k < r.values().len() ==> r.values()[k] == if self.values()[k / (
                num_classes as int)] == k % (num_classes as int) {
                    1i64
                } else {
                    0i64
                },
    {
        let rows = self.data.len();
        let n = rows * num_classes;
        let mut data: Vec<i64> = Vec::new();
        let mut k: usize = 0;
        while k < n
            invariant
                k <= n,
                n == rows * num_classes,
                rows == self.data.len(),
                data@.len() == k,
                forall|j: int|
                    0 <= j < k ==> data@[j] == if self.data@[j / (num_classes as int)] == j % (
                    num_classes as int) {
                        1i64
                    } else {
                        0i64
                    },
            decreases n - k,
        {
            assert(num_classes != 0 && k / num_classes < rows) by (nonlinear_arith)
                requires
                    k < n,
                    n == rows * num_classes,
            ;
            let row = k / num_classes;
            let col = k % num_classes;
            if self.data[row] as i128 == col as i128 {
                data.push(1);
            } else {
                data.push(0);
            }
            k = k + 1;
        }
        let r = Tensor { shape: vec![rows, num_classes], data };
        proof {
            lemma_numel_small(rows, num_classes);
            assert(r.dims() =~= seq![rows, num_classes]);
        }
        r
    }
}

/// Multiplier of the linear congruential generator behind `Tensor::random`.
pub const LCG_MULTIPLIER: u64 = 6364136223846793005;

/// Increment of the linear congruential generator behind `Tensor::random`.
pub const LCG_INCREMENT: u64 = 1442695040888963407;

/// The generator state that follows `s`.
pub open spec fn lcg_next(s: u64) -> u64 {
    ((s as int * LCG_MULTIPLIER as int + LCG_INCREMENT as int) % 0x1_0000_0000_0000_0000) as u64
}

/// The generator state `k` steps after `seed`.
pub open spec fn lcg_state(seed: u64, k: nat) -> u64
    decreases k,
{
    if k == 0 {
        seed
    } else {
        lcg_next(lcg_state(seed, (k - 1) as nat))
    }
}

/// The value in `[low, high]` drawn from generator state `s`: its high 31
/// bits reduced modulo the width of the range.
pub open spec fn uniform_value(s: u64, low: i64, high: i64) -> int {
    low + (s as int / 0x2_0000_0000) % (high - low + 1)
}

fn lcg_step(s: u64) -> (r: u64)
    ensures
        r == lcg_next(s),
{
    let wide = (s as u128) * (LCG_MULTIPLIER as u128) + (LCG_INCREMENT as u128);
    (wide % 0x1_0000_0000_0000_0000u128) as u64
}

impl Tensor {
    /// A tensor of the given shape whose elements are drawn uniformly from
    /// `[low, high]` by a generator started at `seed`: the same arguments
    /// always give the same tensor.
    pub fn random(shape: Vec<usize>, low: i64, high: i64, seed: u64) -> (r: Tensor)
        requires
            numel(shape@) <= usize::MAX,
            low <= high,
        ensures
            r.wf(),
            r.dims() == shape@,
            forall|k: int|
                0 <= k < r.values().len() ==> r.values()[k] == uniform_value(
                    lcg_state(seed, (k + 1) as nat),
                    low,
                    high,
                ),
            forall|k: int| 0 <= k < r.values().len() ==> low <= #[trigger] r.values()[k] <= high,
    {
        let n = checked_numel(&shape).unwrap();
        let span = (high as i128) - (low as i128) + 1;
        let mut state = seed;
        let mut data: Vec<i64> = Vec::new();
        let mut k: usize = 0;
        while k < n
            invariant
                k <= n,
                span == high - low + 1,
                low <= high,
                state == lcg_state(seed, k as nat),
                data@.len() == k,
                forall|j: int|
                    0 <= j < k ==> data@[j] == uniform_value(lcg_state(seed, (j + 1) as nat), low, high),
                forall|j: int| 0 <= j < k ==> low <= #[trigger] data@[j] <= high,
            decreases n - k,
        {
            state = lcg_step(state);
            let bits = (state / 0x2_0000_0000u64) as i128;
            let offset = bits % span;
            data.push(((low as i128) + offset) as i64);
            k = k + 1;
        }
        Tensor { shape, data }
    }
}

/// Product of the sizes before dimension `dim`.
pub open spec fn outer_size(shape: Seq<usize>, dim: int) -> nat {
    numel(shape.take(dim))
}

/// Product of the sizes after dimension `dim`.
pub open spec fn inner_size(shape: Seq<usize>, dim: int) -> nat {
    numel(shape.skip(dim + 1))
}

/// The shape of a reduction along `dim`: that dimension has size one.
pub open spec fn reduced_shape(shape: Seq<usize>, dim: int) -> Seq<usize> {
    shape.update(dim, 1usize)
}

/// The elements along dimension `dim` that a reduction folds into position
/// `p` of its result.
pub open spec fn lane(values: Seq<i64>, shape: Seq<usize>, dim: int, p: int) -> Seq<i64> {
    let n = shape[dim] as int;
    let inner = inner_size(shape, dim) as int;
    Seq::new(shape[dim] as nat, |k: int| values[((p / inner) * n + k) * inner + p % inner])
}

proof fn lemma_numel_concat(a: Seq<usize>, b: Seq<usize>)
    ensures
        numel(a + b) == numel(a) * numel(b),
    decreases b.len(),
{
    if b.len() == 0 {
        assert(a + b =~= a);
        assert(numel(b) == 1);
        assert(numel(a) * 1 == numel(a));
    } else {
        lemma_numel_concat(a, b.drop_last());
        assert((a + b).drop_last() =~= a + b.drop_last());
        assert((a + b).last() == b.last());
        let x = numel(a);
        let y = numel(b.drop_last());
        let z = b.last() as nat;
        assert(numel(a + b) == numel(a + b.drop_last()) * z);
        assert(numel(a + b.drop_last()) == x * y);
        assert(numel(b) == y * z);
        assert((x * y) * z == x * (y * z)) by (nonlinear_arith);
        assert(numel(a + b) == (x * y) * z);
        assert(numel(a) * numel(b) == x * (y * z));
    }
}

/// A shape with size `m` at `dim` holds as many elements as the sizes
/// before `dim`, `m` and the sizes after `dim` together.
proof fn lemma_numel_resized(shape: Seq<usize>, dim: int, m: usize)
    requires
        0 <= dim < shape.len(),
    ensures
        numel(shape.update(dim, m)) == outer_size(shape, dim) * (m as nat) * inner_size(shape, dim),
{
    let a = shape.take(dim);
    let b = shape.skip(dim + 1);
    assert(shape.update(dim, m) =~= a + seq![m] + b);
    lemma_numel_concat(a + seq![m], b);
    lemma_numel_concat(a, seq![m]);
    lemma_numel_small(m, 0);
}

/// A shape holds as many elements as its sizes before `dim`, at `dim` and
/// after `dim` together.
proof fn lemma_numel_split(shape: Seq<usize>, dim: int)
    requires
        0 <= dim < shape.len(),
    ensures
        numel(shape) == outer_size(shape, dim) * (shape[dim] as nat) * inner_size(shape, dim),
        numel(reduced_shape(shape, dim)) == outer_size(shape, dim) * inner_size(shape, dim),
{
    let a = shape.take(dim);
    let b = shape.skip(dim + 1);
    let r = reduced_shape(shape, dim);
    assert(shape =~= a + seq![shape[dim]] + b);
    assert(r =~= a + seq![1usize] + b);
    assert(r.take(dim) =~= a);
    lemma_numel_concat(a + seq![shape[dim]], b);
    lemma_numel_concat(a, seq![shape[dim]]);
    lemma_numel_concat(a + seq![1usize], b);
    lemma_numel_concat(a, seq![1usize]);
    lemma_numel_small(shape[dim], 0);
    lemma_numel_small(1, 0);
}

/// Positions inside a lane stay inside the tensor.
proof fn lemma_lane_index(o: int, k: int, j: int, outer: int, n: int, inner: int)
    requires
        0 <= o < outer,
        0 <= k < n,
        0 <= j < inner,
    ensures
        0 <= (o * n + k) * inner + j < outer * n * inner,
        o * n <= o * n + k <= (o * n + k) * inner,
{
    assert(0 <= o * n + k) by (nonlinear_arith)
        requires
            0 <= o,
            0 <= k,
            0 <= n,
    ;
    assert(o * n + k <= outer * n - 1) by (nonlinear_arith)
        requires
            0 <= o < outer,
            0 <= k < n,
    ;
    let m = o * n + k;
    assert(0 <= m * inner + j) by (nonlinear_arith)
        requires
            0 <= m,
            0 <= j,
            0 <= inner,
    ;
    assert(m * inner + j < outer * n * inner) by (nonlinear_arith)
        requires
            0 <= m <= outer * n - 1,
            0 <= j < inner,
    ;
    assert(m <= m * inner) by (nonlinear_arith)
        requires
            0 <= m,
            1 <= inner,
    ;
}

impl Tensor {
    /// The elements that a reduction along `dim` folds into position `p`.
    fn lane_at(&self, dim: usize, n: usize, inner: usize, p: usize) -> (r: Vec<i64>)
        requires
            self.wf(),
            dim < self.dims().len(),
            n == self.dims()[dim as int],
            inner == inner_size(self.dims(), dim as int),
            inner > 0,
            p < outer_size(self.dims(), dim as int) * inner,
        ensures
            r@ == lane(self.values(), self.dims(), dim as int, p as int),
    {
        proof {
            lemma_numel_split(self.dims(), dim as int);
        }
        let o = p / inner;
        let j = p % inner;
        let ghost outer = outer_size(self.dims(), dim as int) as int;
        proof {
            assert(o < outer) by (nonlinear_arith)
                requires
                    p < outer * inner,
                    inner > 0,
                    o == p / inner,
            ;
        }
        let total = self.data.len();
        let mut r: Vec<i64> = Vec::new();
        let mut k: usize = 0;
        while k < n
            invariant
                k <= n,
                total == self.data@.len(),
                o < outer,
                j < inner,
                self.data@.len() == outer * n * inner,
                r@ =~= lane(self.values(), self.dims(), dim as int, p as int).take(k as int),
                n == self.dims()[dim as int],
                inner == inner_size(self.dims(), dim as int),
                o == p / inner,
                j == p % inner,
            decreases n - k,
        {
            proof {
                lemma_lane_index(o as int, k as int, j as int, outer, n as int, inner as int);
            }
            let at = (o * n + k) * inner + j;
            r.push(self.data[at]);
            k = k + 1;
        }
        r
    }
}

/// `i` indexes a largest element of `s`, and no earlier element is as large.
pub open spec fn is_first_max(s: Seq<i64>, i: int) -> bool {
    &&& 0 <= i < s.len()
    &&& forall|k: int| 0 <= k < s.len() ==> s[k] <= s[i]
    &&& forall|k: int| 0 <= k < i ==> s[k] < s[i]
}

/// `i` indexes a smallest element of `s`, and no earlier element is as small.
pub open spec fn is_first_min(s: Seq<i64>, i: int) -> bool {
    &&& 0 <= i < s.len()
    &&& forall|k: int| 0 <= k < s.len() ==> s[i] <= s[k]
    &&& forall|k: int| 0 <= k < i ==> s[i] < s[k]
}

#[derive(Clone, Copy)]
enum ReduceOp {
    Sum,
    Prod,
    Mean,
    Max,
    Min,
    MaxAbs,
    ArgMax,
    ArgMin,
}

spec fn reduce_ok(op: ReduceOp, s: Seq<i64>) -> bool {
    match op {
        ReduceOp::Sum => sums_fit(s),
        ReduceOp::Prod => prods_fit(s),
        ReduceOp::Mean => s.len() > 0 && sums_fit(s),
        ReduceOp::Max | ReduceOp::Min => s.len() > 0,
        ReduceOp::MaxAbs => s.len() > 0 && forall|k: int| 0 <= k < s.len() ==> s[k] != i64::MIN,
        ReduceOp::ArgMax | ReduceOp::ArgMin => 0 < s.len() <= i64::MAX,
    }
}

spec fn reduce_spec(op: ReduceOp, s: Seq<i64>, v: i64) -> bool {
    match op {
        ReduceOp::Sum => v == sum_of(s),
        ReduceOp::Prod => v == prod_of(s),
        ReduceOp::Mean => v == div_trunc(sum_of(s), s.len() as int),
        ReduceOp::Max => is_max(s, v as int),
        ReduceOp::Min => is_min(s, v as int),
        ReduceOp::MaxAbs => is_max_abs(s, v as int),
        ReduceOp::ArgMax => is_first_max(s, v as int),
        ReduceOp::ArgMin => is_first_min(s, v as int),
    }
}

fn sum_seq(v: &Vec<i64>) -> (r: i64)
    requires
        sums_fit(v@),
    ensures
        r == sum_of(v@),
{
    let mut acc: i64 = 0;
    let mut i: usize = 0;
    while i < v.len()
        invariant
            i <= v.len(),
            sums_fit(v@),
            acc == sum_of(v@.take(i as int)),
        decreases v.len() - i,
    {
        proof {
            assert(v@.take(i + 1).drop_last() =~= v@.take(i as int));
            assert(fits_i64(sum_of(v@.take(i + 1))));
        }
        acc = acc + v[i];
        i = i + 1;
    }
    proof {
        assert(v@.take(i as int) =~= v@);
    }
    acc
}

fn prod_seq(v: &Vec<i64>) -> (r: i64)
    requires
        prods_fit(v@),
    ensures
        r == prod_of(v@),
{
    let mut acc: i64 = 1;
    let mut i: usize = 0;
    while i < v.len()
        invariant
            i <= v.len(),
            prods_fit(v@),
            acc == prod_of(v@.take(i as int)),
        decreases v.len() - i,
    {
        proof {
            assert(v@.take(i + 1).drop_last() =~= v@.take(i as int));
            assert(fits_i64(prod_of(v@.take(i + 1))));
        }
        acc = acc * v[i];
        i = i + 1;
    }
    proof {
        assert(v@.take(i as int) =~= v@);
    }
    acc
}

fn mean_seq(v: &Vec<i64>) -> (r: i64)
    requires
        v@.len() > 0,
        sums_fit(v@),
    ensures
        r == div_trunc(sum_of(v@), v@.len() as int),
{
    let x = sum_seq(v) as i128;
    let y = v.len() as i128;
    proof {
        let ax = abs(x as int);
        let q = ax / (y as int);
        assert(0 <= q <= ax) by (nonlinear_arith)
            requires
                ax >= 0,
                y >= 1,
                q == ax / (y as int),
        ;
    }
    x.checked_div(y).unwrap() as i64
}

/// Index of the first largest (`largest`) or first smallest element.
fn arg_extreme(v: &Vec<i64>, largest: bool) -> (r: usize)
    requires
        v@.len() > 0,
    ensures
        largest ==> is_first_max(v@, r as int),
        !largest ==> is_first_min(v@, r as int),
{
    let mut best: usize = 0;
    let mut i: usize = 1;
    while i < v.len()
        invariant
            1 <= i <= v.len(),
            best < i,
            largest ==> is_first_max(v@.take(i as int), best as int),
            !largest ==> is_first_min(v@.take(i as int), best as int),
        decreases v.len() - i,
    {
        let ghost prefix = v@.take(i as int);
        let ghost next = v@.take(i + 1);
        proof {
            assert forall|j: int| 0 <= j < i implies next[j] == prefix[j] by {}
        }
        let better = if largest {
            v[i] > v[best]
        } else {
            v[i] < v[best]
        };
        if better {
            best = i;
        }
        proof {
            assert(next[best as int] == v@[best as int]);
            if largest {
                assert forall|k: int| 0 <= k < next.len() implies next[k] <= next[best as int] by {
                    if k < i {
                        assert(prefix[k] == next[k]);
                    }
                }
                assert forall|k: int| 0 <= k < best implies next[k] < next[best as int] by {
                    assert(prefix[k] == next[k]);
                }
            } else {
                assert forall|k: int| 0 <= k < next.len() implies next[best as int] <= next[k] by {
                    if k < i {
                        assert(prefix[k] == next[k]);
                    }
                }
                assert forall|k: int| 0 <= k < best implies next[best as int] < next[k] by {
                    assert(prefix[k] == next[k]);
                }
            }
        }
        i = i + 1;
    }
    proof {
        assert(v@.take(i as int) =~= v@);
    }
    best
}

fn reduce_seq(op: ReduceOp, v: &Vec<i64>) -> (r: i64)
    requires
        reduce_ok(op, v@),
    ensures
        reduce_spec(op, v@, r),
{
    match op {
        ReduceOp::Sum => sum_seq(v),
        ReduceOp::Prod => prod_seq(v),
        ReduceOp::Mean => mean_seq(v),
        ReduceOp::Max => {
            let i = arg_extreme(v, true);
            v[i]
        },
        ReduceOp::Min => {
            let i = arg_extreme(v, false);
            v[i]
        },
        ReduceOp::MaxAbs => {
            let mut best: i64 = if v[0] < 0 {
                -v[0]
            } else {
                v[0]
            };
            let mut i: usize = 1;
            while i < v.len()
                invariant
                    1 <= i <= v.len(),
                    forall|k: int| 0 <= k < v@.len() ==> v@[k] != i64::MIN,
                    exists|k: int| 0 <= k < i && abs(v@[k] as int) == best,
                    forall|k: int| 0 <= k < i ==> abs(v@[k] as int) <= best,
                decreases v.len() - i,
            {
                let a = if v[i] < 0 {
                    -v[i]
                } else {
                    v[i]
                };
                if a > best {
                    best = a;
                }
                i = i + 1;
            }
            best
        },
        ReduceOp::ArgMax => arg_extreme(v, true) as i64,
        ReduceOp::ArgMin => arg_extreme(v, false) as i64,
    }
}

impl Tensor {
    fn reduce_dim(&self, dim: usize, op: ReduceOp) -> (r: Tensor)
        requires
            self.wf(),
            dim < self.dims().len(),
            numel(reduced_shape(self.dims(), dim as int)) <= usize::MAX,
            forall|p: int|
                0 <= p < numel(reduced_shape(self.dims(), dim as int)) ==> reduce_ok(
                    op,
                    #[trigger] lane(self.values(), self.dims(), dim as int, p),
                ),
        ensures
            r.wf(),
            r.dims() == reduced_shape(self.dims(), dim as int),
            forall|p: int|
                0 <= p < r.values().len() ==> reduce_spec(
                    op,
                    lane(self.values(), self.dims(), dim as int, p),
                    #[trigger] r.values()[p],
                ),
    {
        proof {
            lemma_numel_split(self.dims(), dim as int);
        }
        let mut shape = copy_dims(&self.shape);
        shape.set(dim, 1);
        proof {
            assert(shape@ =~= reduced_shape(self.dims(), dim as int));
        }
        let out_len = checked_numel(&shape).unwrap();
        let rank = self.shape.len();
        let mut suffix: Vec<usize> = Vec::new();
        let mut i: usize = dim + 1;
        while i < self.shape.len()
            invariant
                dim + 1 <= i <= self.shape.len(),
                suffix@ == self.shape@.subrange(dim + 1, i as int),
            decreases self.shape.len() - i,
        {
            suffix.push(self.shape[i]);
            i = i + 1;
            proof {
                assert(suffix@ =~= self.shape@.subrange(dim + 1, i as int));
            }
        }
        proof {
            assert(suffix@ =~= self.dims().skip(dim + 1));
        }
        let mut data: Vec<i64> = Vec::new();
        if out_len == 0 {
            return Tensor { shape, data };
        }
        let ghost outer = outer_size(self.dims(), dim as int);
        proof {
            assert(inner_size(self.dims(), dim as int) <= out_len) by (nonlinear_arith)
                requires
                    out_len == outer * inner_size(self.dims(), dim as int),
                    out_len > 0,
            ;
        }
        let inner = checked_numel(&suffix).unwrap();
        proof {
            assert(inner > 0) by (nonlinear_arith)
                requires
                    out_len == outer * inner,
                    out_len > 0,
            ;
        }
        let n = self.shape[dim];
        let mut p: usize = 0;
        while p < out_len
            invariant
                p <= out_len,
                out_len == numel(reduced_shape(self.dims(), dim as int)),
                out_len == outer * inner,
                outer == outer_size(self.dims(), dim as int),
                inner == inner_size(self.dims(), dim as int),
                inner > 0,
                n == self.dims()[dim as int],
                dim < self.dims().len(),
                self.wf(),
                forall|q: int|
                    0 <= q < numel(reduced_shape(self.dims(), dim as int)) ==> reduce_ok(
                        op,
                        #[trigger] lane(self.values(), self.dims(), dim as int, q),
                    ),
                data@.len() == p,
                forall|q: int|
                    0 <= q < p ==> reduce_spec(
                        op,
                        lane(self.values(), self.dims(), dim as int, q),
                        #[trigger] data@[q],
                    ),
            decreases out_len - p,
        {
            let l = self.lane_at(dim, n, inner, p);
            proof {
                assert(reduce_ok(op, lane(self.values(), self.dims(), dim as int, p as int)));
            }
            data.push(reduce_seq(op, &l));
            p = p + 1;
        }
        Tensor { shape, data }
    }
}

impl Tensor {
    /// Sums along `dim`, which keeps size one.
    pub fn sum_dim(self, dim: usize) -> (r: Tensor)
        requires
            self.wf(),
            dim < self.dims().len(),
            numel(reduced_shape(self.dims(), dim as int)) <= usize::MAX,
            forall|p: int|
                0 <= p < numel(reduced_shape(self.dims(), dim as int)) ==> sums_fit(#[trigger] lane(self.values(), self.dims(), dim as int, p)),
        ensures
            r.wf(),
            r.dims() == reduced_shape(self.dims(), dim as int),
            forall|p: int|
                0 <= p < r.values().len() ==> #[trigger] r.values()[p] == sum_of(lane(self.values(), self.dims(), dim as int, p)),
    {
        self.reduce_dim(dim, ReduceOp::Sum)
    }

    /// Multiplies along `dim`, which keeps size one.
    pub fn prod_dim(self, dim: usize) -> (r: Tensor)
        requires
            self.wf(),
            dim < self.dims().len(),
            numel(reduced_shape(self.dims(), dim as int)) <= usize::MAX,
            forall|p: int|
                0 <= p < numel(reduced_shape(self.dims(), dim as int)) ==> prods_fit(#[trigger] lane(self.values(), self.dims(), dim as int, p)),
        ensures
            r.wf(),
            r.dims() == reduced_shape(self.dims(), dim as int),
            forall|p: int|
                0 <= p < r.values().len() ==> #[trigger] r.values()[p] == prod_of(lane(self.values(), self.dims(), dim as int, p)),
    {
        self.reduce_dim(dim, ReduceOp::Prod)
    }

    /// Means along `dim`, rounded toward zero; `dim` keeps size one.
    pub fn mean_dim(self, dim: usize) -> (r: Tensor)
        requires
            self.wf(),
            dim < self.dims().len(),
            numel(reduced_shape(self.dims(), dim as int)) <= usize::MAX,
            self.dims()[dim as int] > 0,
            forall|p: int|
                0 <= p < numel(reduced_shape(self.dims(), dim as int)) ==> sums_fit(#[trigger] lane(self.values(), self.dims(), dim as int, p)),
        ensures
            r.wf(),
            r.dims() == reduced_shape(self.dims(), dim as int),
            forall|p: int|
                0 <= p < r.values().len() ==> #[trigger] r.values()[p] == div_trunc(
                    sum_of(lane(self.values(), self.dims(), dim as int, p)),
                    self.dims()[dim as int] as int,
                ),
    {
        self.reduce_dim(dim, ReduceOp::Mean)
    }

    /// Largest element along `dim`, which keeps size one.
    pub fn max_dim(self, dim: usize) -> (r: Tensor)
        requires
            self.wf(),
            dim < self.dims().len(),
            numel(reduced_shape(self.dims(), dim as int)) <= usize::MAX,
            self.dims()[dim as int] > 0,
        ensures
            r.wf(),
            r.dims() == reduced_shape(self.dims(), dim as int),
            forall|p: int|
                0 <= p < r.values().len() ==> is_max(lane(self.values(), self.dims(), dim as int, p), #[trigger] r.values()[p] as int),
    {
        self.reduce_dim(dim, ReduceOp::Max)
    }

    /// Smallest element along `dim`, which keeps size one.
    pub fn min_dim(self, dim: usize) -> (r: Tensor)
        requires
            self.wf(),
            dim < self.dims().len(),
            numel(reduced_shape(self.dims(), dim as int)) <= usize::MAX,
            self.dims()[dim as int] > 0,
        ensures
            r.wf(),
            r.dims() == reduced_shape(self.dims(), dim as int),
            forall|p: int|
                0 <= p < r.values().len() ==> is_min(lane(self.values(), self.dims(), dim as int, p), #[trigger] r.values()[p] as int),
    {
        self.reduce_dim(dim, ReduceOp::Min)
    }

    /// Index along `dim` of the first largest element; `dim` keeps size one.
    pub fn argmax(self, dim: usize) -> (r: Tensor)
        requires
            self.wf(),
            dim < self.dims().len(),
            numel(reduced_shape(self.dims(), dim as int)) <= usize::MAX,
            0 < self.dims()[dim as int] <= i64::MAX,
        ensures
            r.wf(),
            r.dims() == reduced_shape(self.dims(), dim as int),
            forall|p: int|
                0 <= p < r.values().len() ==> is_first_max(lane(self.values(), self.dims(), dim as int, p), #[trigger] r.values()[p] as int),
    {
        self.reduce_dim(dim, ReduceOp::ArgMax)
    }

    /// Index along `dim` of the first smallest element; `dim` keeps size one.
    pub fn argmin(self, dim: usize) -> (r: Tensor)
        requires
            self.wf(),
            dim < self.dims().len(),
            numel(reduced_shape(self.dims(), dim as int)) <= usize::MAX,
            0 < self.dims()[dim as int] <= i64::MAX,
        ensures
            r.wf(),
            r.dims() == reduced_shape(self.dims(), dim as int),
            forall|p: int|
                0 <= p < r.values().len() ==> is_first_min(lane(self.values(), self.dims(), dim as int, p), #[trigger] r.values()[p] as int),
    {
        self.reduce_dim(dim, ReduceOp::ArgMin)
    }

    /// Largest absolute value along `dim`, which keeps size one.
    pub fn max_abs_dim(self, dim: usize) -> (r: Tensor)
        requires
            self.wf(),
            dim < self.dims().len(),
            numel(reduced_shape(self.dims(), dim as int)) <= usize::MAX,
            self.dims()[dim as int] > 0,
            forall|i: int| 0 <= i < self.values().len() ==> self.values()[i] != i64::MIN,
        ensures
            r.wf(),
            r.dims() == reduced_shape(self.dims(), dim as int),
            forall|p: int|
                0 <= p < r.values().len() ==> is_max_abs(
                    lane(self.values(), self.dims(), dim as int, p),
                    #[trigger] r.values()[p] as int,
                ),
    {
        proof {
            lemma_numel_split(self.dims(), dim as int);
            let outer = outer_size(self.dims(), dim as int) as int;
            let inner = inner_size(self.dims(), dim as int) as int;
            let n = self.dims()[dim as int] as int;
            assert forall|p: int|
                0 <= p < numel(reduced_shape(self.dims(), dim as int)) implies reduce_ok(
                ReduceOp::MaxAbs,
                #[trigger] lane(self.values(), self.dims(), dim as int, p),
            ) by {
                let l = lane(self.values(), self.dims(), dim as int, p);
                assert(inner > 0 && p / inner < outer && p % inner < inner) by (nonlinear_arith)
                    requires
                        0 <= p < outer * inner,
                        outer >= 0,
                        inner >= 0,
                ;
                assert forall|k: int| 0 <= k < l.len() implies l[k] != i64::MIN by {
                    lemma_lane_index(p / inner, k, p % inner, outer, n, inner);
                }
            }
        }
        self.reduce_dim(dim, ReduceOp::MaxAbs)
    }

    /// Largest elements along `dim` and the indices of their first
    /// occurrences; `dim` keeps size one in both.
    pub fn max_dim_with_indices(self, dim: usize) -> (r: (Tensor, Tensor))
        requires
            self.wf(),
            dim < self.dims().len(),
            numel(reduced_shape(self.dims(), dim as int)) <= usize::MAX,
            0 < self.dims()[dim as int] <= i64::MAX,
        ensures
            r.0.wf(),
            r.1.wf(),
            r.0.dims() == reduced_shape(self.dims(), dim as int),
            r.1.dims() == reduced_shape(self.dims(), dim as int),
            forall|p: int|
                0 <= p < r.1.values().len() ==> is_first_max(
                    lane(self.values(), self.dims(), dim as int, p),
                    #[trigger] r.1.values()[p] as int,
                ) && r.0.values()[p] == lane(self.values(), self.dims(), dim as int, p)[r.1.values()[p] as int],
    {
        let indices = self.reduce_dim(dim, ReduceOp::ArgMax);
        let values = self.reduce_dim(dim, ReduceOp::Max);
        proof {
            assert forall|p: int| 0 <= p < indices.values().len() implies values.values()[p]
                == lane(self.values(), self.dims(), dim as int, p)[indices.values()[p] as int] by {
                let l = lane(self.values(), self.dims(), dim as int, p);
                let i = indices.values()[p] as int;
                assert(reduce_spec(ReduceOp::ArgMax, l, indices.values()[p]));
                assert(reduce_spec(ReduceOp::Max, l, values.values()[p]));
                let k = choose|k: int| 0 <= k < l.len() && l[k] == values.values()[p];
                assert(l[k] <= l[i]);
            }
        }
        (values, indices)
    }

    /// Smallest elements along `dim` and the indices of their first
    /// occurrences; `dim` keeps size one in both.
    pub fn min_dim_with_indices(self, dim: usize) -> (r: (Tensor, Tensor))
        requires
            self.wf(),
            dim < self.dims().len(),
            numel(reduced_shape(self.dims(), dim as int)) <= usize::MAX,
            0 < self.dims()[dim as int] <= i64::MAX,
        ensures
            r.0.wf(),
            r.1.wf(),
            r.0.dims() == reduced_shape(self.dims(), dim as int),
            r.1.dims() == reduced_shape(self.dims(), dim as int),
            forall|p: int|
                0 <= p < r.1.values().len() ==> is_first_min(
                    lane(self.values(), self.dims(), dim as int, p),
                    #[trigger] r.1.values()[p] as int,
                ) && r.0.values()[p] == lane(self.values(), self.dims(), dim as int, p)[r.1.values()[p] as int],
    {
        let indices = self.reduce_dim(dim, ReduceOp::ArgMin);
        let values = self.reduce_dim(dim, ReduceOp::Min);
        proof {
            assert forall|p: int| 0 <= p < indices.values().len() implies values.values()[p]
                == lane(self.values(), self.dims(), dim as int, p)[indices.values()[p] as int] by {
                let l = lane(self.values(), self.dims(), dim as int, p);
                let i = indices.values()[p] as int;
                assert(reduce_spec(ReduceOp::ArgMin, l, indices.values()[p]));
                assert(reduce_spec(ReduceOp::Min, l, values.values()[p]));
                let k = choose|k: int| 0 <= k < l.len() && l[k] == values.values()[p];
                assert(l[i] <= l[k]);
            }
        }
        (values, indices)
    }
}

/// `b` raised to the power `e`.
pub open spec fn power(b: int, e: nat) -> int
    decreases e,
{
    if e == 0 {
        1
    } else {
        power(b, (e - 1) as nat) * b
    }
}

/// `b` to the power `e` is defined here: `e` is not negative, and every
/// power of `b` up to the `e`-th fits in `i64`.
pub open spec fn powers_fit(b: i64, e: i64) -> bool {
    &&& e >= 0
    &&& forall|k: nat| k <= e ==> fits_i64(#[trigger] power(b as int, k))
}

fn pow_elem(b: i64, e: i64) -> (r: i64)
    requires
        powers_fit(b, e),
    ensures
        r == power(b as int, e as nat),
{
    let mut acc: i64 = 1;
    let mut k: i64 = 0;
    while k < e
        invariant
            0 <= k <= e,
            powers_fit(b, e),
            acc == power(b as int, k as nat),
        decreases e - k,
    {
        proof {
            assert(fits_i64(power(b as int, (k + 1) as nat)));
        }
        acc = acc * b;
        k = k + 1;
    }
    acc
}

impl Tensor {
    /// Raises every element to the power of the matching element of `other`.
    pub fn powi(self, other: Tensor) -> (r: Tensor)
        requires
            self.wf(),
            other.wf(),
            other.dims() == self.dims(),
            forall|i: int|
                0 <= i < self.values().len() ==> powers_fit(
                    #[trigger] self.values()[i],
                    other.values()[i],
                ),
        ensures
            r.dims() == self.dims(),
            r.values().len() == self.values().len(),
            forall|i: int|
                0 <= i < r.values().len() ==> r.values()[i] == power(
                    self.values()[i] as int,
                    other.values()[i] as nat,
                ),
    {
        let mut data: Vec<i64> = Vec::new();
        let mut i: usize = 0;
        while i < self.data.len()
            invariant
                i <= self.data.len(),
                self.data.len() == other.data.len(),
                forall|k: int| 0 <= k < self.data.len() ==> powers_fit(self.data@[k], other.data@[k]),
                data@.len() == i,
                forall|k: int|
                    0 <= k < i ==> data@[k] == power(self.data@[k] as int, other.data@[k] as nat),
            decreases self.data.len() - i,
        {
            data.push(pow_elem(self.data[i], other.data[i]));
            i = i + 1;
        }
        Tensor { shape: self.shape, data }
    }

    /// Raises every element to the power `other`.
    pub fn powi_scalar(self, other: i64) -> (r: Tensor)
        requires
            self.wf(),
            forall|i: int| 0 <= i < self.values().len() ==> powers_fit(#[trigger] self.values()[i], other),
        ensures
            r.dims() == self.dims(),
            r.values().len() == self.values().len(),
            forall|i: int|
                0 <= i < r.values().len() ==> r.values()[i] == power(
                    self.values()[i] as int,
                    other as nat,
                ),
    {
        let mut data: Vec<i64> = Vec::new();
        let mut i: usize = 0;
        while i < self.data.len()
            invariant
                i <= self.data.len(),
                forall|k: int| 0 <= k < self.data.len() ==> powers_fit(self.data@[k], other),
                data@.len() == i,
                forall|k: int| 0 <= k < i ==> data@[k] == power(self.data@[k] as int, other as nat),
            decreases self.data.len() - i,
        {
            data.push(pow_elem(self.data[i], other));
            i = i + 1;
        }
        Tensor { shape: self.shape, data }
    }
}

/// Flat index of the element of a tensor of shape `shape` that `select`
/// along `dim` with `indices` places at position `p`.
pub open spec fn select_source(shape: Seq<usize>, dim: int, indices: Seq<i64>, p: int) -> int {
    let n = shape[dim] as int;
    let m = indices.len() as int;
    let inner = inner_size(shape, dim) as int;
    ((p / (m * inner)) * n + indices[(p / inner) % m]) * inner + p % inner
}

impl Tensor {
    /// Picks, along `dim`, the slices at `indices` in their order: slice
    /// `k` of the result is slice `indices[k]` of `self`.
    pub fn select(self, dim: usize, indices: Tensor) -> (r: Tensor)
        requires
            self.wf(),
            indices.wf(),
            dim < self.dims().len(),
            indices.dims().len() == 1,
            forall|k: int|
                0 <= k < indices.values().len() ==> 0 <= #[trigger] indices.values()[k]
                    && indices.values()[k] < self.dims()[dim as int],
            numel(self.dims().update(dim as int, indices.values().len() as usize)) <= usize::MAX,
        ensures
            r.wf(),
            r.dims() == self.dims().update(dim as int, indices.values().len() as usize),
            forall|p: int|
                0 <= p < r.values().len() ==> #[trigger] r.values()[p] == self.values()[select_source(
                    self.dims(),
                    dim as int,
                    indices.values(),
                    p,
                )],
    {
        let m = indices.data.len();
        proof {
            lemma_numel_resized(self.dims(), dim as int, m);
            lemma_numel_split(self.dims(), dim as int);
        }
        let mut shape = copy_dims(&self.shape);
        shape.set(dim, m);
        proof {
            assert(shape@ =~= self.dims().update(dim as int, m));
        }
        let out_len = checked_numel(&shape).unwrap();
        let rank = self.shape.len();
        let mut suffix: Vec<usize> = Vec::new();
        let mut i: usize = dim + 1;
        while i < rank
            invariant
                rank == self.shape.len(),
                dim + 1 <= i <= rank,
                suffix@ == self.shape@.subrange(dim + 1, i as int),
            decreases rank - i,
        {
            suffix.push(self.shape[i]);
            i = i + 1;
            proof {
                assert(suffix@ =~= self.shape@.subrange(dim + 1, i as int));
            }
        }
        proof {
            assert(suffix@ =~= self.dims().skip(dim + 1));
        }
        let mut data: Vec<i64> = Vec::new();
        if out_len == 0 {
            return Tensor { shape, data };
        }
        let ghost outer = outer_size(self.dims(), dim as int) as int;
        let ghost inner_g = inner_size(self.dims(), dim as int) as int;
        proof {
            assert(inner_g <= out_len && m * inner_g <= out_len && inner_g > 0 && m > 0 && outer > 0)
                by (nonlinear_arith)
                requires
                    out_len == outer * m * inner_g,
                    out_len > 0,
                    outer >= 0,
                    inner_g >= 0,
                    m >= 0,
            ;
        }
        let inner = checked_numel(&suffix).unwrap();
        let block = m * inner;
        proof {
            assert(block > 0) by (nonlinear_arith)
                requires
                    block == m * inner,
                    m > 0,
                    inner > 0,
            ;
        }
        let n = self.shape[dim];
        let total = self.data.len();
        let mut p: usize = 0;
        while p < out_len
            invariant
                p <= out_len,
                out_len == outer * m * inner,
                outer > 0,
                inner > 0,
                m > 0,
                block == m * inner,
                block > 0,
                inner == inner_size(self.dims(), dim as int),
                n == self.dims()[dim as int],
                m == indices.values().len(),
                total == self.data@.len(),
                total == outer * n * inner,
                dim < self.dims().len(),
                forall|k: int|
                    0 <= k < indices.values().len() ==> 0 <= #[trigger] indices.values()[k]
                        && indices.values()[k] < self.dims()[dim as int],
                data@.len() == p,
                forall|q: int|
                    0 <= q < p ==> #[trigger] data@[q] == self.values()[select_source(
                        self.dims(),
                        dim as int,
                        indices.values(),
                        q,
                    )],
            decreases out_len - p,
        {
            let o = p / block;
            let k = (p / inner) % m;
            let j = p % inner;
            proof {
                assert(o < outer) by (nonlinear_arith)
                    requires
                        p < outer * m * inner,
                        block == m * inner,
                        block > 0,
                        o == p / block,
                ;
                assert(0 <= indices.values()[k as int] < n);
                lemma_lane_index(
                    o as int,
                    indices.values()[k as int] as int,
                    j as int,
                    outer,
                    n as int,
                    inner as int,
                );
            }
            let at = (o * n + indices.data[k] as usize) * inner + j;
            data.push(self.data[at]);
            p = p + 1;
        }
        Tensor { shape, data }
    }
}

/// Ascending order of elements, or descending order where `descending`.
pub open spec fn element_order(descending: bool) -> spec_fn(i64, i64) -> bool {
    |a: i64, b: i64| if descending {
        a >= b
    } else {
        a <= b
    }
}

proof fn lemma_element_order_total(descending: bool)
    ensures
        total_ordering(element_order(descending)),
{
}

fn sorted_elements(v: &Vec<i64>, descending: bool) -> (r: Vec<i64>)
    ensures
        r@ == v@.sort_by(element_order(descending)),
{
    let ghost ord = element_order(descending);
    let mut r: Vec<i64> = Vec::new();
    let mut i: usize = 0;
    while i < v.len()
        invariant
            i <= v.len(),
            ord == element_order(descending),
            sorted_by(r@, ord),
            r@.to_multiset() == v@.take(i as int).to_multiset(),
        decreases v.len() - i,
    {
        let x = v[i];
        let mut p: usize = r.len();
        while p > 0 && ((descending && r[p - 1] < x) || (!descending && r[p - 1] > x))
            invariant
                p <= r.len(),
                forall|k: int| p <= k < r.len() ==> !ord(r@[k], x),
                ord == element_order(descending),
            decreases p,
        {
            p = p - 1;
        }
        let ghost before = r@;
        r.insert(p, x);
        proof {
            assert(r@ == before.insert(p as int, x));
            assert forall|a: int, b: int| 0 <= a < b < r@.len() implies #[trigger] ord(
                r@[a],
                r@[b],
            ) by {
                if b < p {
                    assert(ord(before[a], before[b]));
                } else if b == p {
                    if a < p - 1 {
                        assert(ord(before[a], before[p - 1]));
                    }
                } else if a < p {
                    assert(!ord(before[b - 1], x));
                    if a < p - 1 {
                        assert(ord(before[a], before[p - 1]));
                    }
                } else if a > p {
                    assert(ord(before[a - 1], before[b - 1]));
                }
            }
            assert(v@.take(i + 1) =~= v@.take(i as int).push(x));
        }
        i = i + 1;
    }
    proof {
        assert(v@.take(i as int) =~= v@);
        lemma_element_order_total(descending);
        v@.lemma_sort_by_ensures(ord);
        vstd::seq_lib::lemma_sorted_unique(r@, v@.sort_by(ord), ord);
    }
    r
}

/// Position, in the reduction along `dim`, of the lane through flat index
/// `q`.
pub open spec fn lane_of(shape: Seq<usize>, dim: int, q: int) -> int {
    let n = shape[dim] as int;
    let inner = inner_size(shape, dim) as int;
    (q / (n * inner)) * inner + q % inner
}

/// Place along `dim` of flat index `q`.
pub open spec fn place_along(shape: Seq<usize>, dim: int, q: int) -> int {
    (q / (inner_size(shape, dim) as int)) % (shape[dim] as int)
}

impl Tensor {
    /// Sorts the elements along `dim`, ascending.
    pub fn sort(self, dim: usize) -> (r: Tensor)
        requires
            self.wf(),
            dim < self.dims().len(),
        ensures
            r.wf(),
            r.dims() == self.dims(),
            forall|q: int|
                0 <= q < r.values().len() ==> #[trigger] r.values()[q] == lane(
                    self.values(),
                    self.dims(),
                    dim as int,
                    lane_of(self.dims(), dim as int, q),
                ).sort_by(element_order(false))[place_along(self.dims(), dim as int, q)],
    {
        proof {
            assert(self.dims().update(dim as int, self.dims()[dim as int]) =~= self.dims());
        }
        self.sort_along(dim, false, self.shape[dim])
    }

    /// Sorts the elements along `dim`, descending.
    pub fn sort_descending(self, dim: usize) -> (r: Tensor)
        requires
            self.wf(),
            dim < self.dims().len(),
        ensures
            r.wf(),
            r.dims() == self.dims(),
            forall|q: int|
                0 <= q < r.values().len() ==> #[trigger] r.values()[q] == lane(
                    self.values(),
                    self.dims(),
                    dim as int,
                    lane_of(self.dims(), dim as int, q),
                ).sort_by(element_order(true))[place_along(self.dims(), dim as int, q)],
    {
        proof {
            assert(self.dims().update(dim as int, self.dims()[dim as int]) =~= self.dims());
        }
        self.sort_along(dim, true, self.shape[dim])
    }

    /// The `k` largest elements along `dim`, in descending order: `dim`
    /// keeps size `k`.
    pub fn topk(self, k: usize, dim: usize) -> (r: Tensor)
        requires
            self.wf(),
            dim < self.dims().len(),
            k <= self.dims()[dim as int],
        ensures
            r.wf(),
            r.dims() == self.dims().update(dim as int, k),
            forall|q: int|
                0 <= q < r.values().len() ==> #[trigger] r.values()[q] == lane(
                    self.values(),
                    self.dims(),
                    dim as int,
                    lane_of(r.dims(), dim as int, q),
                ).sort_by(element_order(true))[place_along(r.dims(), dim as int, q)],
    {
        self.sort_along(dim, true, k)
    }

    /// Sorts each lane along `dim` and keeps its first `keep` places.
    fn sort_along(&self, dim: usize, descending: bool, keep: usize) -> (r: Tensor)
        requires
            self.wf(),
            dim < self.dims().len(),
            keep <= self.dims()[dim as int],
        ensures
            r.wf(),
            r.dims() == self.dims().update(dim as int, keep),
            forall|q: int|
                0 <= q < r.values().len() ==> #[trigger] r.values()[q] == lane(
                    self.values(),
                    self.dims(),
                    dim as int,
                    lane_of(r.dims(), dim as int, q),
                ).sort_by(element_order(descending))[place_along(r.dims(), dim as int, q)],
    {
        proof {
            lemma_numel_split(self.dims(), dim as int);
            lemma_numel_resized(self.dims(), dim as int, keep);
            assert(self.dims().update(dim as int, keep).skip(dim + 1) =~= self.dims().skip(dim + 1));
        }
        let mut shape = copy_dims(&self.shape);
        shape.set(dim, keep);
        proof {
            assert(shape@ =~= self.dims().update(dim as int, keep));
        }
        let total = self.data.len();
        let n = self.shape[dim];
        let ghost outer = outer_size(self.dims(), dim as int) as int;
        let ghost inner_g = inner_size(self.dims(), dim as int) as int;
        if total == 0 || keep == 0 {
            proof {
                assert(outer * keep * inner_g == 0) by (nonlinear_arith)
                    requires
                        total == outer * n * inner_g,
                        total == 0 || keep == 0,
                        keep <= n,
                        outer >= 0,
                        inner_g >= 0,
                ;
            }
            return Tensor { shape, data: Vec::new() };
        }
        let rank = self.shape.len();
        let mut suffix: Vec<usize> = Vec::new();
        let mut i: usize = dim + 1;
        while i < rank
            invariant
                rank == self.shape.len(),
                dim + 1 <= i <= rank,
                suffix@ == self.shape@.subrange(dim + 1, i as int),
            decreases rank - i,
        {
            suffix.push(self.shape[i]);
            i = i + 1;
            proof {
                assert(suffix@ =~= self.shape@.subrange(dim + 1, i as int));
            }
        }
        proof {
            assert(suffix@ =~= self.dims().skip(dim + 1));
            assert(inner_g <= total && outer * inner_g <= total && inner_g > 0 && n > 0 && outer
                > 0) by (nonlinear_arith)
                requires
                    total == outer * n * inner_g,
                    total > 0,
                    outer >= 0,
                    inner_g >= 0,
                    n >= 0,
            ;
        }
        let inner = checked_numel(&suffix).unwrap();
        let lanes_len = total / n;
        proof {
            assert(lanes_len == outer * inner) by (nonlinear_arith)
                requires
                    total == outer * n * inner,
                    n > 0,
                    lanes_len == total / n,
            ;
        }
        let mut lanes: Vec<Vec<i64>> = Vec::new();
        let mut p: usize = 0;
        while p < lanes_len
            invariant
                p <= lanes_len,
                lanes_len == outer * inner,
                outer == outer_size(self.dims(), dim as int),
                inner == inner_size(self.dims(), dim as int),
                inner > 0,
                n == self.dims()[dim as int],
                dim < self.dims().len(),
                self.wf(),
                lanes@.len() == p,
                forall|l: int|
                    0 <= l < p ==> (#[trigger] lanes@[l])@ == lane(
                        self.values(),
                        self.dims(),
                        dim as int,
                        l,
                    ).sort_by(element_order(descending)),
            decreases lanes_len - p,
        {
            let l = self.lane_at(dim, n, inner, p);
            lanes.push(sorted_elements(&l, descending));
            p = p + 1;
        }
        proof {
            assert(keep * inner <= total && outer * keep * inner <= total) by (nonlinear_arith)
                requires
                    total == outer * n * inner,
                    outer >= 1,
                    keep <= n,
                    inner >= 0,
                    keep >= 0,
            ;
        }
        let block = keep * inner;
        proof {
            assert(lanes_len * keep <= total) by (nonlinear_arith)
                requires
                    lanes_len == outer * inner,
                    outer * keep * inner <= total,
            ;
        }
        let out_len = lanes_len * keep;
        proof {
            assert(out_len == outer * keep * inner) by (nonlinear_arith)
                requires
                    lanes_len == outer * inner,
                    out_len == lanes_len * keep,
            ;
            assert(block > 0 && out_len == outer * block) by (nonlinear_arith)
                requires
                    block == keep * inner,
                    keep > 0,
                    inner > 0,
                    lanes_len == outer * inner,
                    out_len == lanes_len * keep,
            ;
        }
        let ghost rdims = shape@;
        let mut data: Vec<i64> = Vec::new();
        let mut q: usize = 0;
        while q < out_len
            invariant
                q <= out_len,
                out_len == outer * block,
                out_len == outer * keep * inner,
                numel(rdims) == outer * keep * inner,
                block == keep * inner,
                block > 0,
                inner > 0,
                keep <= n,
                lanes_len == outer * inner,
                inner == inner_size(self.dims(), dim as int),
                inner == inner_size(rdims, dim as int),
                rdims == self.dims().update(dim as int, keep),
                n == self.dims()[dim as int],
                dim < self.dims().len(),
                lanes@.len() == lanes_len,
                forall|l: int|
                    0 <= l < lanes_len ==> (#[trigger] lanes@[l])@ == lane(
                        self.values(),
                        self.dims(),
                        dim as int,
                        l,
                    ).sort_by(element_order(descending)),
                data@.len() == q,
                forall|x: int|
                    0 <= x < q ==> #[trigger] data@[x] == lane(
                        self.values(),
                        self.dims(),
                        dim as int,
                        lane_of(rdims, dim as int, x),
                    ).sort_by(element_order(descending))[place_along(rdims, dim as int, x)],
            decreases out_len - q,
        {
            let o = q / block;
            let j = q % inner;
            let k = (q / inner) % keep;
            proof {
                assert(o < outer && o * inner + j < outer * inner) by (nonlinear_arith)
                    requires
                        q < outer * block,
                        block > 0,
                        o == q / block,
                        j < inner,
                ;
                let lp = lane_of(rdims, dim as int, q as int);
                assert(rdims[dim as int] == keep);
                assert(lp == o * inner + j);
                lemma_element_order_total(descending);
                lane(self.values(), self.dims(), dim as int, lp).lemma_sort_by_ensures(
                    element_order(descending),
                );
                assert(lanes@[lp]@.to_multiset().len() == n);
            }
            let lp = o * inner + j;
            data.push(lanes[lp][k]);
            q = q + 1;
        }
        Tensor { shape, data }
    }
}

/// Flat index of the element of a tensor of shape `shape` that `gather`
/// along `dim` places at position `p` of a result whose size along `dim` is
/// `m`, reading index `i` there.
pub open spec fn gather_source(shape: Seq<usize>, dim: int, m: int, i: i64, p: int) -> int {
    let n = shape[dim] as int;
    let inner = inner_size(shape, dim) as int;
    ((p / (m * inner)) * n + i) * inner + p % inner
}

impl Tensor {
    /// Reads, at every position of `indices`, the element of `self` found by
    /// replacing the position's coordinate along `dim` with the index there.
    pub fn gather(self, dim: usize, indices: Tensor) -> (r: Tensor)
        requires
            self.wf(),
            indices.wf(),
            dim < self.dims().len(),
            indices.dims() == self.dims().update(dim as int, indices.dims()[dim as int]),
            forall|q: int|
                0 <= q < indices.values().len() ==> 0 <= #[trigger] indices.values()[q]
                    && indices.values()[q] < self.dims()[dim as int],
        ensures
            r.wf(),
            r.dims() == indices.dims(),
            forall|q: int|
                0 <= q < r.values().len() ==> #[trigger] r.values()[q] == self.values()[gather_source(
                    self.dims(),
                    dim as int,
                    indices.dims()[dim as int] as int,
                    indices.values()[q],
                    q,
                )],
    {
        let m = indices.shape[dim];
        proof {
            lemma_numel_resized(self.dims(), dim as int, m);
            lemma_numel_split(self.dims(), dim as int);
        }
        let out_len = indices.data.len();
        let shape = copy_dims(&indices.shape);
        let mut data: Vec<i64> = Vec::new();
        if out_len == 0 {
            return Tensor { shape, data };
        }
        let rank = self.shape.len();
        let mut suffix: Vec<usize> = Vec::new();
        let mut i: usize = dim + 1;
        while i < rank
            invariant
                rank == self.shape.len(),
                dim + 1 <= i <= rank,
                suffix@ == self.shape@.subrange(dim + 1, i as int),
            decreases rank - i,
        {
            suffix.push(self.shape[i]);
            i = i + 1;
            proof {
                assert(suffix@ =~= self.shape@.subrange(dim + 1, i as int));
            }
        }
        proof {
            assert(suffix@ =~= self.dims().skip(dim + 1));
        }
        let ghost outer = outer_size(self.dims(), dim as int) as int;
        let ghost inner_g = inner_size(self.dims(), dim as int) as int;
        proof {
            assert(inner_g <= out_len && m * inner_g <= out_len && inner_g > 0 && m > 0 && outer
                > 0) by (nonlinear_arith)
                requires
                    out_len == outer * m * inner_g,
                    out_len > 0,
                    outer >= 0,
                    inner_g >= 0,
                    m >= 0,
            ;
        }
        let inner = checked_numel(&suffix).unwrap();
        let block = m * inner;
        proof {
            assert(block > 0) by (nonlinear_arith)
                requires
                    block == m * inner,
                    m > 0,
                    inner > 0,
            ;
        }
        let n = self.shape[dim];
        let total = self.data.len();
        let mut p: usize = 0;
        while p < out_len
            invariant
                p <= out_len,
                out_len == indices.values().len(),
                out_len == outer * m * inner,
                outer > 0,
                inner > 0,
                block == m * inner,
                block > 0,
                m == indices.dims()[dim as int],
                inner == inner_size(self.dims(), dim as int),
                n == self.dims()[dim as int],
                total == self.data@.len(),
                total == outer * n * inner,
                dim < self.dims().len(),
                forall|q: int|
                    0 <= q < indices.values().len() ==> 0 <= #[trigger] indices.values()[q]
                        && indices.values()[q] < self.dims()[dim as int],
                data@.len() == p,
                forall|q: int|
                    0 <= q < p ==> #[trigger] data@[q] == self.values()[gather_source(
                        self.dims(),
                        dim as int,
                        m as int,
                        indices.values()[q],
                        q,
                    )],
            decreases out_len - p,
        {
            let o = p / block;
            let j = p % inner;
            let idx = indices.data[p];
            proof {
                assert(o < outer) by (nonlinear_arith)
                    requires
                        p < outer * m * inner,
                        block == m * inner,
                        block > 0,
                        o == p / block,
                ;
                assert(0 <= indices.values()[p as int] < n);
                lemma_lane_index(o as int, idx as int, j as int, outer, n as int, inner as int);
            }
            let at = (o * n + idx as usize) * inner + j;
            data.push(self.data[at]);
            p = p + 1;
        }
        Tensor { shape, data }
    }
}

/// The shape of `shape` padded by `(left, right, top, bottom)` on its last
/// two dimensions.
pub open spec fn padded_shape(shape: Seq<usize>, padding: (usize, usize, usize, usize)) -> Seq<
    usize,
> {
    let (left, right, top, bottom) = padding;
    let r = shape.len() - 1;
    shape.update(r - 1, (shape[r - 1] + top + bottom) as usize).update(
        r,
        (shape[r] + left + right) as usize,
    )
}

/// The element at flat index `q` of `values` (of shape `shape`) padded by
/// `padding` with `value`: an element of `values` inside the unpadded
/// bounds, `value` in the border.
pub open spec fn padded_value(
    values: Seq<i64>,
    shape: Seq<usize>,
    padding: (usize, usize, usize, usize),
    value: i64,
    q: int,
) -> i64 {
    let (left, right, top, bottom) = padding;
    let r = shape.len() - 1;
    let h = shape[r - 1] as int;
    let w = shape[r] as int;
    let out_h = h + top + bottom;
    let out_w = w + left + right;
    let x = q % out_w;
    let y = (q / out_w) % out_h;
    let b = q / (out_w * out_h);
    if top <= y < top + h && left <= x < left + w {
        values[(b * h + (y - top)) * w + (x - left)]
    } else {
        value
    }
}

impl Tensor {
    /// Pads the last two dimensions: `left` and `right` columns, `top` and
    /// `bottom` rows, all holding `value`.
    pub fn pad(self, padding: (usize, usize, usize, usize), value: i64) -> (r: Tensor)
        requires
            self.wf(),
            self.dims().len() >= 2,
            self.dims()[self.dims().len() - 2] + padding.2 + padding.3 <= usize::MAX,
            self.dims()[self.dims().len() - 1] + padding.0 + padding.1 <= usize::MAX,
            numel(padded_shape(self.dims(), padding)) <= usize::MAX,
        ensures
            r.wf(),
            r.dims() == padded_shape(self.dims(), padding),
            forall|q: int|
                0 <= q < r.values().len() ==> #[trigger] r.values()[q] == padded_value(
                    self.values(),
                    self.dims(),
                    padding,
                    value,
                    q,
                ),
    {
        let (left, right, top, bottom) = padding;
        let rank = self.shape.len();
        let h = self.shape[rank - 2];
        let w = self.shape[rank - 1];
        let out_h = h + top + bottom;
        let out_w = w + left + right;
        let mut shape = copy_dims(&self.shape);
        shape.set(rank - 2, out_h);
        shape.set(rank - 1, out_w);
        let ghost d = self.dims();
        let ghost d1 = d.update(rank - 1, out_w);
        proof {
            assert(shape@ =~= padded_shape(d, padding));
            assert(shape@ =~= d1.update(rank - 2, out_h));
            lemma_numel_split(d, rank - 2);
            lemma_numel_resized(d1, rank - 2, out_h);
            assert(d1.take(rank - 2) =~= d.take(rank - 2));
            assert(d1.skip(rank - 1) =~= seq![out_w]);
            assert(d.skip(rank - 1) =~= seq![w]);
            lemma_numel_single(out_w);
            lemma_numel_single(w);
        }
        let out_len = checked_numel(&shape).unwrap();
        let mut data: Vec<i64> = Vec::new();
        if out_len == 0 {
            return Tensor { shape, data };
        }
        let ghost batch = outer_size(d, rank - 2) as int;
        proof {
            assert(out_len == batch * out_h * out_w);
            assert(out_h > 0 && out_w > 0 && out_h * out_w <= out_len && batch > 0)
                by (nonlinear_arith)
                requires
                    out_len == batch * out_h * out_w,
                    out_len > 0,
                    batch >= 0,
                    out_h >= 0,
                    out_w >= 0,
            ;
        }
        let plane = out_w * out_h;
        proof {
            assert(plane > 0) by (nonlinear_arith)
                requires
                    plane == out_w * out_h,
                    out_w > 0,
                    out_h > 0,
            ;
        }
        let total = self.data.len();
        let mut q: usize = 0;
        while q < out_len
            invariant
                q <= out_len,
                out_len == batch * out_h * out_w,
                plane == out_w * out_h,
                plane > 0,
                out_h > 0,
                out_w > 0,
                batch > 0,
                rank == d.len(),
                rank >= 2,
                d == self.dims(),
                h == d[rank - 2],
                w == d[rank - 1],
                out_h == h + top + bottom,
                out_w == w + left + right,
                padding == (left, right, top, bottom),
                total == self.data@.len(),
                total == batch * h * w,
                data@.len() == q,
                forall|x: int|
                    0 <= x < q ==> #[trigger] data@[x] == padded_value(
                        self.values(),
                        self.dims(),
                        padding,
                        value,
                        x,
                    ),
            decreases out_len - q,
        {
            let x = q % out_w;
            let y = (q / out_w) % out_h;
            let b = q / plane;
            if y >= top && y < top + h && x >= left && x < left + w {
                proof {
                    assert(b < batch) by (nonlinear_arith)
                        requires
                            q < batch * out_h * out_w,
                            plane == out_w * out_h,
                            plane > 0,
                            b == q / plane,
                    ;
                    lemma_lane_index(
                        b as int,
                        (y - top) as int,
                        (x - left) as int,
                        batch,
                        h as int,
                        w as int,
                    );
                }
                let src = (b * h + (y - top)) * w + (x - left);
                data.push(self.data[src]);
            } else {
                data.push(value);
            }
            q = q + 1;
        }
        Tensor { shape, data }
    }
}

/// Elements paired with their positions.
pub open spec fn indexed(s: Seq<i64>) -> Seq<(i64, usize)> {
    Seq::new(s.len(), |k: int| (s[k], k as usize))
}

/// Order of (value, position) pairs: by value, ascending or descending, and
/// by position among equal values, which makes a sort by it stable.
pub open spec fn pair_order(descending: bool) -> spec_fn((i64, usize), (i64, usize)) -> bool {
    |a: (i64, usize), b: (i64, usize)| if descending {
        a.0 > b.0 || (a.0 == b.0 && a.1 <= b.1)
    } else {
        a.0 < b.0 || (a.0 == b.0 && a.1 <= b.1)
    }
}

/// The lane at `p` along `dim`, as (value, index) pairs in stable sorted order.
pub open spec fn sorted_lane(
    values: Seq<i64>,
    shape: Seq<usize>,
    dim: int,
    p: int,
    descending: bool,
) -> Seq<(i64, usize)> {
    indexed(lane(values, shape, dim, p)).sort_by(pair_order(descending))
}

/// The (value, index) pair that a sort along `dim` places at flat index `q`
/// of a result of shape `rdims`.
pub open spec fn sorted_entry(
    values: Seq<i64>,
    shape: Seq<usize>,
    dim: int,
    rdims: Seq<usize>,
    q: int,
    descending: bool,
) -> (i64, usize) {
    sorted_lane(values, shape, dim, lane_of(rdims, dim, q), descending)[place_along(rdims, dim, q)]
}

proof fn lemma_pair_order_total(descending: bool)
    ensures
        total_ordering(pair_order(descending)),
{
}

fn pair_before(a: (i64, usize), b: (i64, usize), descending: bool) -> (r: bool)
    ensures
        r == (pair_order(descending))(a, b),
{
    if descending {
        a.0 > b.0 || (a.0 == b.0 && a.1 <= b.1)
    } else {
        a.0 < b.0 || (a.0 == b.0 && a.1 <= b.1)
    }
}

fn indexed_elements(v: &Vec<i64>) -> (r: Vec<(i64, usize)>)
    ensures
        r@ == indexed(v@),
{
    let mut r: Vec<(i64, usize)> = Vec::new();
    let mut i: usize = 0;
    while i < v.len()
        invariant
            i <= v.len(),
            r@ == indexed(v@).take(i as int),
        decreases v.len() - i,
    {
        r.push((v[i], i));
        i = i + 1;
        proof {
            assert(r@ =~= indexed(v@).take(i as int));
        }
    }
    proof {
        assert(indexed(v@).take(i as int) =~= indexed(v@));
    }
    r
}

fn sorted_pairs(v: &Vec<(i64, usize)>, descending: bool) -> (r: Vec<(i64, usize)>)
    ensures
        r@ == v@.sort_by(pair_order(descending)),
{
    let ghost ord = pair_order(descending);
    let mut r: Vec<(i64, usize)> = Vec::new();
    let mut i: usize = 0;
    while i < v.len()
        invariant
            i <= v.len(),
            ord == pair_order(descending),
            sorted_by(r@, ord),
            r@.to_multiset() == v@.take(i as int).to_multiset(),
        decreases v.len() - i,
    {
        let x = v[i];
        let mut p: usize = r.len();
        while p > 0 && !pair_before(r[p - 1], x, descending)
            invariant
                p <= r.len(),
                forall|k: int| p <= k < r.len() ==> !ord(r@[k], x),
                ord == pair_order(descending),
            decreases p,
        {
            p = p - 1;
        }
        let ghost before = r@;
        r.insert(p, x);
        proof {
            lemma_pair_order_total(descending);
            assert(r@ == before.insert(p as int, x));
            assert forall|a: int, b: int| 0 <= a < b < r@.len() implies #[trigger] ord(
                r@[a],
                r@[b],
            ) by {
                if b < p {
                    assert(ord(before[a], before[b]));
                } else if b == p {
                    if a < p - 1 {
                        assert(ord(before[a], before[p - 1]));
                    }
                } else if a < p {
                    assert(!ord(before[b - 1], x));
                    if a < p - 1 {
                        assert(ord(before[a], before[p - 1]));
                    }
                } else if a > p {
                    assert(ord(before[a - 1], before[b - 1]));
                }
            }
            assert(v@.take(i + 1) =~= v@.take(i as int).push(x));
        }
        i = i + 1;
    }
    proof {
        assert(v@.take(i as int) =~= v@);
        lemma_pair_order_total(descending);
        v@.lemma_sort_by_ensures(ord);
        vstd::seq_lib::lemma_sorted_unique(r@, v@.sort_by(ord), ord);
    }
    r
}

impl Tensor {
    /// Sorts each lane along `dim` by value, ties in their input order,
    /// keeping its first `keep` places: the values, and their indices along
    /// `dim`.
    fn sort_indexed_along(&self, dim: usize, descending: bool, keep: usize) -> (r: (Tensor, Tensor))
        requires
            self.wf(),
            dim < self.dims().len(),
            keep <= self.dims()[dim as int],
            self.dims()[dim as int] <= i64::MAX,
        ensures
            r.0.wf(),
            r.1.wf(),
            r.0.dims() == self.dims().update(dim as int, keep),
            r.1.dims() == r.0.dims(),
            forall|q: int|
                0 <= q < r.0.values().len() ==> #[trigger] r.0.values()[q] == sorted_entry(self.values(), self.dims(), dim as int, r.0.dims(), q, descending).0,
            forall|q: int|
                0 <= q < r.1.values().len() ==> #[trigger] r.1.values()[q] == sorted_entry(self.values(), self.dims(), dim as int, r.1.dims(), q, descending).1 as i64,
    {
        proof {
            lemma_numel_split(self.dims(), dim as int);
            lemma_numel_resized(self.dims(), dim as int, keep);
            assert(self.dims().update(dim as int, keep).skip(dim + 1) =~= self.dims().skip(dim + 1));
        }
        let mut shape = copy_dims(&self.shape);
        shape.set(dim, keep);
        proof {
            assert(shape@ =~= self.dims().update(dim as int, keep));
        }
        let total = self.data.len();
        let n = self.shape[dim];
        let ghost outer = outer_size(self.dims(), dim as int) as int;
        let ghost inner_g = inner_size(self.dims(), dim as int) as int;
        if total == 0 || keep == 0 {
            proof {
                assert(outer * keep * inner_g == 0) by (nonlinear_arith)
                    requires
                        total == outer * n * inner_g,
                        total == 0 || keep == 0,
                        keep <= n,
                        outer >= 0,
                        inner_g >= 0,
                ;
            }
            return (
                Tensor { shape: copy_dims(&shape), data: Vec::new() },
                Tensor { shape, data: Vec::new() },
            );
        }
        let rank = self.shape.len();
        let mut suffix: Vec<usize> = Vec::new();
        let mut i: usize = dim + 1;
        while i < rank
            invariant
                rank == self.shape.len(),
                dim + 1 <= i <= rank,
                suffix@ == self.shape@.subrange(dim + 1, i as int),
            decreases rank - i,
        {
            suffix.push(self.shape[i]);
            i = i + 1;
            proof {
                assert(suffix@ =~= self.shape@.subrange(dim + 1, i as int));
            }
        }
        proof {
            assert(suffix@ =~= self.dims().skip(dim + 1));
            assert(inner_g <= total && outer * inner_g <= total && inner_g > 0 && n > 0 && outer
                > 0) by (nonlinear_arith)
                requires
                    total == outer * n * inner_g,
                    total > 0,
                    outer >= 0,
                    inner_g >= 0,
                    n >= 0,
            ;
        }
        let inner = checked_numel(&suffix).unwrap();
        let lanes_len = total / n;
        proof {
            assert(lanes_len == outer * inner) by (nonlinear_arith)
                requires
                    total == outer * n * inner,
                    n > 0,
                    lanes_len == total / n,
            ;
        }
        let mut lanes: Vec<Vec<(i64, usize)>> = Vec::new();
        let mut p: usize = 0;
        while p < lanes_len
            invariant
                p <= lanes_len,
                lanes_len == outer * inner,
                outer == outer_size(self.dims(), dim as int),
                inner == inner_size(self.dims(), dim as int),
                inner > 0,
                n == self.dims()[dim as int],
                dim < self.dims().len(),
                self.wf(),
                lanes@.len() == p,
                n <= i64::MAX,
                forall|l: int|
                    0 <= l < p ==> (#[trigger] lanes@[l])@ == sorted_lane(
                        self.values(),
                        self.dims(),
                        dim as int,
                        l,
                        descending,
                    ),
            decreases lanes_len - p,
        {
            let l = self.lane_at(dim, n, inner, p);
            let pairs = indexed_elements(&l);
            lanes.push(sorted_pairs(&pairs, descending));
            p = p + 1;
        }
        proof {
            assert(keep * inner <= total && outer * keep * inner <= total) by (nonlinear_arith)
                requires
                    total == outer * n * inner,
                    outer >= 1,
                    keep <= n,
                    inner >= 0,
                    keep >= 0,
            ;
        }
        let block = keep * inner;
        proof {
            assert(lanes_len * keep <= total) by (nonlinear_arith)
                requires
                    lanes_len == outer * inner,
                    outer * keep * inner <= total,
            ;
        }
        let out_len = lanes_len * keep;
        proof {
            assert(out_len == outer * keep * inner) by (nonlinear_arith)
                requires
                    lanes_len == outer * inner,
                    out_len == lanes_len * keep,
            ;
            assert(block > 0 && out_len == outer * block) by (nonlinear_arith)
                requires
                    block == keep * inner,
                    keep > 0,
                    inner > 0,
                    lanes_len == outer * inner,
                    out_len == lanes_len * keep,
            ;
        }
        let ghost rdims = shape@;
        let mut data: Vec<i64> = Vec::new();
        let mut index_data: Vec<i64> = Vec::new();
        let mut q: usize = 0;
        while q < out_len
            invariant
                q <= out_len,
                out_len == outer * block,
                out_len == outer * keep * inner,
                numel(rdims) == outer * keep * inner,
                block == keep * inner,
                block > 0,
                inner > 0,
                keep <= n,
                lanes_len == outer * inner,
                inner == inner_size(self.dims(), dim as int),
                inner == inner_size(rdims, dim as int),
                rdims == self.dims().update(dim as int, keep),
                n == self.dims()[dim as int],
                dim < self.dims().len(),
                lanes@.len() == lanes_len,
                n <= i64::MAX,
                forall|l: int|
                    0 <= l < lanes_len ==> (#[trigger] lanes@[l])@ == sorted_lane(
                        self.values(),
                        self.dims(),
                        dim as int,
                        l,
                        descending,
                    ),
                data@.len() == q,
                index_data@.len() == q,
                forall|x: int|
                    0 <= x < q ==> #[trigger] data@[x] == sorted_entry(self.values(), self.dims(), dim as int, rdims, x, descending).0 && index_data@[x] == sorted_entry(self.values(), self.dims(), dim as int, rdims, x, descending).1 as i64,
            decreases out_len - q,
        {
            let o = q / block;
            let j = q % inner;
            let k = (q / inner) % keep;
            proof {
                assert(o < outer && o * inner + j < outer * inner) by (nonlinear_arith)
                    requires
                        q < outer * block,
                        block > 0,
                        o == q / block,
                        j < inner,
                ;
                let lp = lane_of(rdims, dim as int, q as int);
                assert(rdims[dim as int] == keep);
                assert(lp == o * inner + j);
                lemma_pair_order_total(descending);
                let pl = indexed(lane(self.values(), self.dims(), dim as int, lp));
                pl.lemma_sort_by_ensures(pair_order(descending));
                assert(lanes@[lp]@.to_multiset().len() == n);
                assert forall|z: int| 0 <= z < pl.len() implies pl[z].1 < n by {}
                assert(pl.to_multiset().contains(lanes@[lp]@[k as int]));
            }
            let lp = o * inner + j;
            let (v, at) = lanes[lp][k];
            data.push(v);
            index_data.push(at as i64);
            q = q + 1;
        }
        let values = Tensor { shape: copy_dims(&shape), data };
        let indices = Tensor { shape, data: index_data };
        proof {
            assert forall|x: int| 0 <= x < indices.values().len() implies #[trigger] indices.values()[x]
                == sorted_entry(
                self.values(),
                self.dims(),
                dim as int,
                indices.dims(),
                x,
                descending,
            ).1 as i64 by {
                assert(values.values()[x] == data@[x]);
            }
        }
        (values, indices)
    }
}

impl Tensor {
    /// Sorts along `dim`, ascending, ties in their input order; returns the
    /// sorted values and the indices along `dim` they came from.
    pub fn sort_with_indices(self, dim: usize) -> (r: (Tensor, Tensor))
        requires
            self.wf(),
            dim < self.dims().len(),
            self.dims()[dim as int] <= i64::MAX,
        ensures
            r.0.wf(),
            r.1.wf(),
            r.0.dims() == self.dims(),
            r.1.dims() == r.0.dims(),
            forall|q: int|
                0 <= q < r.0.values().len() ==> #[trigger] r.0.values()[q] == sorted_entry(self.values(), self.dims(), dim as int, r.0.dims(), q, false).0,
            forall|q: int|
                0 <= q < r.1.values().len() ==> #[trigger] r.1.values()[q] == sorted_entry(self.values(), self.dims(), dim as int, r.1.dims(), q, false).1 as i64,
    {
        proof {
            assert(self.dims().update(dim as int, self.dims()[dim as int]) =~= self.dims());
        }
        self.sort_indexed_along(dim, false, self.shape[dim])
    }

    /// Sorts along `dim`, descending, ties in their input order; returns the
    /// sorted values and the indices along `dim` they came from.
    pub fn sort_descending_with_indices(self, dim: usize) -> (r: (Tensor, Tensor))
        requires
            self.wf(),
            dim < self.dims().len(),
            self.dims()[dim as int] <= i64::MAX,
        ensures
            r.0.wf(),
            r.1.wf(),
            r.0.dims() == self.dims(),
            r.1.dims() == r.0.dims(),
            forall|q: int|
                0 <= q < r.0.values().len() ==> #[trigger] r.0.values()[q] == sorted_entry(self.values(), self.dims(), dim as int, r.0.dims(), q, true).0,
            forall|q: int|
                0 <= q < r.1.values().len() ==> #[trigger] r.1.values()[q] == sorted_entry(self.values(), self.dims(), dim as int, r.1.dims(), q, true).1 as i64,
    {
        proof {
            assert(self.dims().update(dim as int, self.dims()[dim as int]) =~= self.dims());
        }
        self.sort_indexed_along(dim, true, self.shape[dim])
    }

    /// Indices along `dim` that sort each lane ascending, ties in their
    /// input order.
    pub fn argsort(self, dim: usize) -> (r: Tensor)
        requires
            self.wf(),
            dim < self.dims().len(),
            self.dims()[dim as int] <= i64::MAX,
        ensures
            r.wf(),
            r.dims() == self.dims(),
            forall|q: int|
                0 <= q < r.values().len() ==> #[trigger] r.values()[q] == sorted_entry(
                    self.values(),
                    self.dims(),
                    dim as int,
                    self.dims(),
                    q,
                    false,
                ).1 as i64,
    {
        proof {
            assert(self.dims().update(dim as int, self.dims()[dim as int]) =~= self.dims());
        }
        let (values, indices) = self.sort_indexed_along(dim, false, self.shape[dim]);
        proof {
            assert forall|q: int| 0 <= q < indices.values().len() implies #[trigger] indices.values()[q]
                == sorted_entry(self.values(), self.dims(), dim as int, self.dims(), q, false).1 as i64 by {
                assert(indices.dims() == self.dims());
                assert(values.dims() == self.dims());
                assert(0 <= q < values.values().len());
                assert(values.values()[q] == values.values()[q]);
            }
        }
        indices
    }

    /// Indices along `dim` that sort each lane descending, ties in their
    /// input order.
    pub fn argsort_descending(self, dim: usize) -> (r: Tensor)
        requires
            self.wf(),
            dim < self.dims().len(),
            self.dims()[dim as int] <= i64::MAX,
        ensures
            r.wf(),
            r.dims() == self.dims(),
            forall|q: int|
                0 <= q < r.values().len() ==> #[trigger] r.values()[q] == sorted_entry(
                    self.values(),
                    self.dims(),
                    dim as int,
                    self.dims(),
                    q,
                    true,
                ).1 as i64,
    {
        proof {
            assert(self.dims().update(dim as int, self.dims()[dim as int]) =~= self.dims());
        }
        let (values, indices) = self.sort_indexed_along(dim, true, self.shape[dim]);
        proof {
            assert forall|q: int| 0 <= q < indices.values().len() implies #[trigger] indices.values()[q]
                == sorted_entry(self.values(), self.dims(), dim as int, self.dims(), q, true).1 as i64 by {
                assert(indices.dims() == self.dims());
                assert(values.dims() == self.dims());
                assert(0 <= q < values.values().len());
                assert(values.values()[q] == values.values()[q]);
            }
        }
        indices
    }

    /// The `k` largest elements along `dim`, in descending order, ties in their
    /// input order, with the indices along `dim` they came from.
    pub fn topk_with_indices(self, k: usize, dim: usize) -> (r: (Tensor, Tensor))
        requires
            self.wf(),
            dim < self.dims().len(),
            self.dims()[dim as int] <= i64::MAX,
            k <= self.dims()[dim as int],
        ensures
            r.0.wf(),
            r.1.wf(),
            r.0.dims() == self.dims().update(dim as int, k),
            r.1.dims() == r.0.dims(),
            forall|q: int|
                0 <= q < r.0.values().len() ==> #[trigger] r.0.values()[q] == sorted_entry(self.values(), self.dims(), dim as int, r.0.dims(), q, true).0,
            forall|q: int|
                0 <= q < r.1.values().len() ==> #[trigger] r.1.values()[q] == sorted_entry(self.values(), self.dims(), dim as int, r.1.dims(), q, true).1 as i64,
    {
        proof {
            assert(self.dims().update(dim as int, self.dims()[dim as int]) =~= self.dims());
        }
        self.sort_indexed_along(dim, true, k)
    }
}

/// `base` after adding `vals[q]` to the element at `targets[q]`, for each
/// of the first `k` updates in order (a target outside `base` changes
/// nothing).
pub open spec fn accumulate(base: Seq<i64>, targets: Seq<int>, vals: Seq<i64>, k: nat) -> Seq<i64>
    decreases k,
{
    if k == 0 {
        base
    } else {
        let prev = accumulate(base, targets, vals, (k - 1) as nat);
        let t = targets[k - 1];
        if 0 <= t < prev.len() {
            prev.update(t, (prev[t] + vals[k - 1]) as i64)
        } else {
            prev
        }
    }
}

/// No sum that `accumulate` forms leaves `i64`.
pub open spec fn accumulate_fits(base: Seq<i64>, targets: Seq<int>, vals: Seq<i64>) -> bool {
    forall|k: nat|
        k < vals.len() ==> fits_i64(
            #[trigger] accumulate(base, targets, vals, k)[targets[k as int]] + vals[k as int],
        )
}

/// Targets of `scatter` along `dim`: update `q` goes to the element of
/// `self` found by replacing the coordinate along `dim` of position `q` of
/// `indices` with `indices[q]`.
pub open spec fn scatter_targets(shape: Seq<usize>, dim: int, m: int, indices: Seq<i64>) -> Seq<
    int,
> {
    Seq::new(indices.len(), |q: int| gather_source(shape, dim, m, indices[q], q))
}

/// Targets of `select_assign` along `dim`: element `q` of the values goes to
/// slice `indices[k]` along `dim`, `k` being its own coordinate there.
pub open spec fn select_targets(shape: Seq<usize>, dim: int, indices: Seq<i64>, count: int) -> Seq<
    int,
> {
    Seq::new(count as nat, |q: int| select_source(shape, dim, indices, q))
}

proof fn lemma_accumulate_len(base: Seq<i64>, targets: Seq<int>, vals: Seq<i64>, k: nat)
    ensures
        accumulate(base, targets, vals, k).len() == base.len(),
    decreases k,
{
    if k > 0 {
        lemma_accumulate_len(base, targets, vals, (k - 1) as nat);
    }
}

impl Tensor {
    /// Adds each element of `values` to the element of `self` that `gather`
    /// with the same `dim` and `indices` would read at its position.
    pub fn scatter(self, dim: usize, indices: Tensor, values: Tensor) -> (r: Tensor)
        requires
            self.wf(),
            indices.wf(),
            values.wf(),
            dim < self.dims().len(),
            indices.dims() == self.dims().update(dim as int, indices.dims()[dim as int]),
            values.dims() == indices.dims(),
            forall|q: int|
                0 <= q < indices.values().len() ==> 0 <= #[trigger] indices.values()[q]
                    && indices.values()[q] < self.dims()[dim as int],
            accumulate_fits(
                self.values(),
                scatter_targets(
                    self.dims(),
                    dim as int,
                    indices.dims()[dim as int] as int,
                    indices.values(),
                ),
                values.values(),
            ),
        ensures
            r.wf(),
            r.dims() == self.dims(),
            r.values() == accumulate(
                self.values(),
                scatter_targets(
                    self.dims(),
                    dim as int,
                    indices.dims()[dim as int] as int,
                    indices.values(),
                ),
                values.values(),
                values.values().len(),
            ),
    {
        let m = indices.shape[dim];
        let ghost targets = scatter_targets(self.dims(), dim as int, m as int, indices.values());
        proof {
            lemma_numel_resized(self.dims(), dim as int, m);
            lemma_numel_split(self.dims(), dim as int);
        }
        let count = indices.data.len();
        let total = self.data.len();
        let mut data = self.data;
        if count == 0 {
            return Tensor { shape: self.shape, data };
        }
        let rank = self.shape.len();
        let mut suffix: Vec<usize> = Vec::new();
        let mut i: usize = dim + 1;
        while i < rank
            invariant
                rank == self.shape.len(),
                dim + 1 <= i <= rank,
                suffix@ == self.shape@.subrange(dim + 1, i as int),
            decreases rank - i,
        {
            suffix.push(self.shape[i]);
            i = i + 1;
            proof {
                assert(suffix@ =~= self.shape@.subrange(dim + 1, i as int));
            }
        }
        proof {
            assert(suffix@ =~= self.dims().skip(dim + 1));
        }
        let ghost outer = outer_size(self.dims(), dim as int) as int;
        let ghost inner_g = inner_size(self.dims(), dim as int) as int;
        proof {
            assert(inner_g <= count && m * inner_g <= count && inner_g > 0 && m > 0 && outer > 0)
                by (nonlinear_arith)
                requires
                    count == outer * m * inner_g,
                    count > 0,
                    outer >= 0,
                    inner_g >= 0,
                    m >= 0,
            ;
        }
        let inner = checked_numel(&suffix).unwrap();
        let block = m * inner;
        proof {
            assert(block > 0) by (nonlinear_arith)
                requires
                    block == m * inner,
                    m > 0,
                    inner > 0,
            ;
        }
        let n = self.shape[dim];
        let mut q: usize = 0;
        while q < count
            invariant
                q <= count,
                count == indices.values().len(),
                count == values.values().len(),
                count == outer * m * inner,
                outer > 0,
                inner > 0,
                block == m * inner,
                block > 0,
                m == indices.dims()[dim as int],
                inner == inner_size(self.dims(), dim as int),
                n == self.dims()[dim as int],
                total == self.values().len(),
                total == outer * n * inner,
                dim < self.dims().len(),
                targets == scatter_targets(self.dims(), dim as int, m as int, indices.values()),
                forall|x: int|
                    0 <= x < indices.values().len() ==> 0 <= #[trigger] indices.values()[x]
                        && indices.values()[x] < self.dims()[dim as int],
                accumulate_fits(self.values(), targets, values.values()),
                data@ == accumulate(self.values(), targets, values.values(), q as nat),
            decreases count - q,
        {
            let o = q / block;
            let j = q % inner;
            let idx = indices.data[q];
            proof {
                assert(o < outer) by (nonlinear_arith)
                    requires
                        q < outer * m * inner,
                        block == m * inner,
                        block > 0,
                        o == q / block,
                ;
                assert(0 <= indices.values()[q as int] < n);
                lemma_lane_index(o as int, idx as int, j as int, outer, n as int, inner as int);
                lemma_accumulate_len(self.values(), targets, values.values(), q as nat);
                assert(targets[q as int] == (o * n + idx) * inner + j);
                assert(fits_i64(
                    accumulate(self.values(), targets, values.values(), q as nat)[targets[q as int]]
                        + values.values()[q as int],
                ));
            }
            let at = (o * n + idx as usize) * inner + j;
            let sum = data[at] + values.data[q];
            data.set(at, sum);
            q = q + 1;
        }
        proof {
            lemma_accumulate_len(self.values(), targets, values.values(), q as nat);
        }
        Tensor { shape: self.shape, data }
    }
}

impl Tensor {
    /// Adds slice `k` along `dim` of `values` to slice `indices[k]` along
    /// `dim` of `self`, for each `k` in order.
    pub fn select_assign(self, dim: usize, indices: Tensor, values: Tensor) -> (r: Tensor)
        requires
            self.wf(),
            indices.wf(),
            values.wf(),
            dim < self.dims().len(),
            indices.dims().len() == 1,
            values.dims() == self.dims().update(dim as int, indices.values().len() as usize),
            forall|k: int|
                0 <= k < indices.values().len() ==> 0 <= #[trigger] indices.values()[k]
                    && indices.values()[k] < self.dims()[dim as int],
            accumulate_fits(
                self.values(),
                select_targets(
                    self.dims(),
                    dim as int,
                    indices.values(),
                    values.values().len() as int,
                ),
                values.values(),
            ),
        ensures
            r.wf(),
            r.dims() == self.dims(),
            r.values() == accumulate(
                self.values(),
                select_targets(
                    self.dims(),
                    dim as int,
                    indices.values(),
                    values.values().len() as int,
                ),
                values.values(),
                values.values().len(),
            ),
    {
        let m = indices.data.len();
        let count = values.data.len();
        let ghost targets = select_targets(self.dims(), dim as int, indices.values(), count as int);
        proof {
            lemma_numel_resized(self.dims(), dim as int, m);
            lemma_numel_split(self.dims(), dim as int);
        }
        let total = self.data.len();
        let mut data = self.data;
        if count == 0 {
            return Tensor { shape: self.shape, data };
        }
        let rank = self.shape.len();
        let mut suffix: Vec<usize> = Vec::new();
        let mut i: usize = dim + 1;
        while i < rank
            invariant
                rank == self.shape.len(),
                dim + 1 <= i <= rank,
                suffix@ == self.shape@.subrange(dim + 1, i as int),
            decreases rank - i,
        {
            suffix.push(self.shape[i]);
            i = i + 1;
            proof {
                assert(suffix@ =~= self.shape@.subrange(dim + 1, i as int));
            }
        }
        proof {
            assert(suffix@ =~= self.dims().skip(dim + 1));
        }
        let ghost outer = outer_size(self.dims(), dim as int) as int;
        let ghost inner_g = inner_size(self.dims(), dim as int) as int;
        proof {
            assert(inner_g <= count && m * inner_g <= count && inner_g > 0 && m > 0 && outer > 0)
                by (nonlinear_arith)
                requires
                    count == outer * m * inner_g,
                    count > 0,
                    outer >= 0,
                    inner_g >= 0,
                    m >= 0,
            ;
        }
        let inner = checked_numel(&suffix).unwrap();
        let block = m * inner;
        proof {
            assert(block > 0) by (nonlinear_arith)
                requires
                    block == m * inner,
                    m > 0,
                    inner > 0,
            ;
        }
        let n = self.shape[dim];
        let mut q: usize = 0;
        while q < count
            invariant
                q <= count,
                count == values.values().len(),
                count == outer * m * inner,
                outer > 0,
                inner > 0,
                m > 0,
                block == m * inner,
                block > 0,
                m == indices.values().len(),
                inner == inner_size(self.dims(), dim as int),
                n == self.dims()[dim as int],
                total == self.values().len(),
                total == outer * n * inner,
                dim < self.dims().len(),
                targets == select_targets(self.dims(), dim as int, indices.values(), count as int),
                forall|x: int|
                    0 <= x < indices.values().len() ==> 0 <= #[trigger] indices.values()[x]
                        && indices.values()[x] < self.dims()[dim as int],
                accumulate_fits(self.values(), targets, values.values()),
                data@ == accumulate(self.values(), targets, values.values(), q as nat),
            decreases count - q,
        {
            let o = q / block;
            let k = (q / inner) % m;
            let j = q % inner;
            let idx = indices.data[k];
            proof {
                assert(o < outer) by (nonlinear_arith)
                    requires
                        q < outer * m * inner,
                        block == m * inner,
                        block > 0,
                        o == q / block,
                ;
                assert(0 <= indices.values()[k as int] < n);
                lemma_lane_index(o as int, idx as int, j as int, outer, n as int, inner as int);
                lemma_accumulate_len(self.values(), targets, values.values(), q as nat);
                assert(targets[q as int] == (o * n + idx) * inner + j);
                assert(fits_i64(
                    accumulate(self.values(), targets, values.values(), q as nat)[targets[q as int]]
                        + values.values()[q as int],
                ));
            }
            let at = (o * n + idx as usize) * inner + j;
            let sum = data[at] + values.data[q];
            data.set(at, sum);
            q = q + 1;
        }
        proof {
            lemma_accumulate_len(self.values(), targets, values.values(), q as nat);
        }
        Tensor { shape: self.shape, data }
    }
}

} // verus!
