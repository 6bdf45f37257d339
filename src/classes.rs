use vstd::prelude::*;

verus! {

/// Difference between two centroids from which they no longer count as similar
/// (see [`Classes::is_stable`]).
pub const CLASS_SIMILARITY_THRESHOLD: u8 = 3;

/// Value of centroid `i` in the initial generation of `n` classes.
pub open spec fn initial_centroid(n: int, i: int) -> int {
    (255int / n) * i + (255int / n) / 2
}

pub open spec fn abs_diff(a: int, b: int) -> int {
    if a >= b {
        a - b
    } else {
        b - a
    }
}

/// Two generations are similar when every centroid moved by less than the threshold.
pub open spec fn stable_spec(a: Seq<u8>, b: Seq<u8>) -> bool {
    forall|i: int| 0 <= i < a.len() ==> abs_diff(#[trigger] a[i] as int, b[i] as int) < 3
}

/// Midpoint of two centroids, rounded down, whatever their order.
pub open spec fn center_spec(a: int, b: int) -> int {
    let lo = if a <= b { a } else { b };
    let hi = if a <= b { b } else { a };
    lo + (hi - lo) / 2
}

/// An ordered sequence of class centroids, each an intensity in `0..=255`.
pub struct Classes {
    vector: Vec<u8>,
}

impl View for Classes {
    type V = Seq<u8>;

    closed spec fn view(&self) -> Seq<u8> {
        self.vector@
    }
}

impl Classes {
    /// Equidistant classes: centroid `i` is `base * i + base / 2` with `base = 255int / n`.
    pub fn new(classes: usize) -> (r: Self)
        requires
            1 <= classes <= 256,
        ensures
            r@.len() == classes,
            forall|i: int| 0 <= i < classes ==> #[trigger] r@[i] == initial_centroid(classes as int, i),
            forall|i: int|
                0 <= i < classes - 1 ==> #[trigger] r@[i + 1] == r@[i] + 255int / (classes as int),
            r@[0] == (255int / (classes as int)) / 2,
            255 - r@[classes - 1] < 255int / (classes as int) + classes,
    {
        let mut class = Self { vector: Vec::with_capacity(classes) };
        let class_base: u8 = (255 / classes) as u8;
        let ghost base = 255int / (classes as int);
        proof {
            assert(base * classes <= 255) by (nonlinear_arith)
                requires
                    base == 255int / (classes as int),
                    classes >= 1,
            ;
        }
        let mut i: usize = 0;
        while i < classes
            invariant
                1 <= classes <= 256,
                i <= classes,
                class_base == base,
                base == 255int / (classes as int),
                base * classes <= 255,
                class.vector@.len() == i,
                forall|k: int| 0 <= k < i ==> #[trigger] class.vector@[k] == initial_centroid(classes as int, k),
            decreases classes - i,
        {
            proof {
                assert(base * i + base / 2 <= 255) by (nonlinear_arith)
                    requires
                        base * classes <= 255,
                        i < classes,
                        base >= 0,
                ;
                assert(0 <= base * i) by (nonlinear_arith)
                    requires
                        base >= 0,
                        i >= 0,
                ;
            }
            let class_val: u8 = class_base * (i as u8) + class_base / 2;
            class.vector.push(class_val);
            i = i + 1;
        }
        proof {
            assert forall|k: int| 0 <= k < classes - 1 implies #[trigger] class@[k + 1] == class@[k] + base by {
                assert(base * (k + 1) == base * k + base) by (nonlinear_arith);
            }
            let last = classes - 1;
            assert(255 - (base * last + base / 2) < base + classes) by (nonlinear_arith)
                requires
                    base == 255int / (classes as int),
                    classes >= 1,
                    last == classes - 1,
            ;
        }
        class
    }

    /// An independent copy of the classes.
    pub fn clone(&self) -> (r: Self)
        ensures
            r@ == self@,
    {
        let v = self.vector.clone();
        proof {
            assert(v@ =~= self.vector@);
        }
        Self { vector: v }
    }

    /// Number of classes.
    pub fn len(&self) -> (r: usize)
        ensures
            r == self@.len(),
    {
        self.vector.len()
    }

    /// Centroid at `index`.
    pub fn index(&self, index: usize) -> (r: u8)
        requires
            index < self@.len(),
        ensures
            r == self@[index as int],
    {
        self.vector[index]
    }

    /// Replaces the centroid at `index`.
    pub fn set(&mut self, index: usize, value: u8)
        requires
            index < old(self)@.len(),
        ensures
            final(self)@ == old(self)@.update(index as int, value),
    {
        self.vector.set(index, value);
    }

    /// True when every centroid differs from the one of `rhs` at the same index by
    /// less than [`CLASS_SIMILARITY_THRESHOLD`].
    pub fn is_stable(&self, rhs: &Self) -> (r: bool)
        requires
            self@.len() == rhs@.len(),
        ensures
            r == stable_spec(self@, rhs@),
    {
        let mut index: usize = 0;
        while index < self.vector.len()
            invariant
                self@.len() == rhs@.len(),
                index <= self@.len(),
                forall|k: int| 0 <= k < index ==> abs_diff(#[trigger] self@[k] as int, rhs@[k] as int) < 3,
            decreases self@.len() - index,
        {
            let a = self.vector[index];
            let b = rhs.vector[index];
            let diff: u8 = if a >= b { a - b } else { b - a };
            if diff >= CLASS_SIMILARITY_THRESHOLD {
                return false;
            }
            index = index + 1;
        }
        true
    }

    /// Midpoint between the centroids at `bound_min` and `bound_max`, whatever their order.
    pub fn center(&self, bound_min: usize, bound_max: usize) -> (r: u8)
        requires
            bound_min < self@.len(),
            bound_max < self@.len(),
        ensures
            r == center_spec(self@[bound_min as int] as int, self@[bound_max as int] as int),
    {
        let lhs = self.vector[bound_min];
        let rhs = self.vector[bound_max];
        let (min, max) = if lhs <= rhs { (lhs, rhs) } else { (rhs, lhs) };
        min + (max - min) / 2
    }
}

} // verus!
