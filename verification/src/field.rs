//! The field GF(2^m): its elements as words below 2^m, its arithmetic through
//! powers of a primitive element, and the tables that make it executable.

use vstd::prelude::*;
use vstd::arithmetic::div_mod::*;
use vstd::set_lib::*;
use crate::bits::lemma_xor_cancel;
use crate::bits::lemma_xor_middle;
use crate::bits::lemma_xor_self;

verus! {

/// A presentation of GF(2^m): the degree `m`, and the polynomial of degree
/// `m` over GF(2) whose root `alpha` generates the field, written as a word
/// whose bit `i` is the coefficient of `x^i`.
#[derive(Clone, Copy, Debug)]
pub struct Gf {
    pub m: u32,
    pub poly: u32,
}

impl Gf {
    /// Number of elements of the field.
    pub open spec fn size(self) -> u32 {
        1u32 << self.m
    }

    /// Number of nonzero elements: the order that `alpha` must have.
    pub open spec fn order(self) -> nat {
        (self.size() - 1) as nat
    }

    /// The degree is one that the tables support, and the polynomial has
    /// exactly that degree.
    pub open spec fn has_degree(self) -> bool {
        5 <= self.m <= 15 && self.poly >> self.m == 1
    }

    /// The product of `x` and `alpha`, reduced by the polynomial.
    pub open spec fn times_alpha(self, x: u32) -> u32 {
        let y = x << 1;
        if y >= self.size() {
            y ^ self.poly
        } else {
            y
        }
    }

    /// The product of `v` and `alpha^i`.
    pub open spec fn shift(self, v: u32, i: nat) -> u32
        decreases i,
    {
        if i == 0 {
            v
        } else {
            self.times_alpha(self.shift(v, (i - 1) as nat))
        }
    }

    /// `alpha^i`.
    pub open spec fn pow(self, i: nat) -> u32 {
        self.shift(1, i)
    }

    /// The polynomial is primitive: the multiplicative order of its root is
    /// exactly `2^m - 1`.
    pub open spec fn is_primitive(self) -> bool {
        &&& self.has_degree()
        &&& self.pow(self.order()) == 1
        &&& forall|i: nat| 0 < i < self.order() ==> self.pow(i) != 1
    }

    /// `i` is an exponent below the order at which `alpha` gives `x`.
    pub open spec fn is_log(self, x: u32, i: nat) -> bool {
        i < self.order() && self.pow(i) == x
    }

    /// The exponent below the order at which `alpha` gives `x`.
    pub open spec fn log(self, x: u32) -> nat {
        choose|i: nat| self.is_log(x, i)
    }

    /// Product of two field elements.
    pub open spec fn mul(self, a: u32, b: u32) -> u32 {
        if a == 0 || b == 0 {
            0
        } else {
            self.pow((self.log(a) + self.log(b)) % self.order())
        }
    }

    /// Square of a field element.
    pub open spec fn sq(self, a: u32) -> u32 {
        self.mul(a, a)
    }

    /// Quotient of two field elements, the second of them nonzero.
    pub open spec fn div(self, a: u32, b: u32) -> u32 {
        if a == 0 {
            0
        } else {
            self.pow(((self.log(a) + self.order() - self.log(b)) % (self.order() as int)) as nat)
        }
    }

    /// The values `alpha^0 .. alpha^(c-1)`.
    pub open spec fn pow_image(self, c: nat) -> Set<int>
        decreases c,
    {
        if c == 0 {
            Set::empty()
        } else {
            self.pow_image((c - 1) as nat).insert(self.pow((c - 1) as nat) as int)
        }
    }

    pub proof fn lemma_size(self)
        requires
            self.has_degree(),
        ensures
            32 <= self.size() <= 32768,
            self.order() == self.size() - 1,
            self.size() <= self.poly < 2 * self.size(),
    {
        let m = self.m;
        let poly = self.poly;
        assert(32 <= (1u32 << m) && (1u32 << m) <= 32768) by (bit_vector)
            requires
                5 <= m && m <= 15,
        ;
        assert((1u32 << m) <= poly && poly < 2 * (1u32 << m)) by (bit_vector)
            requires
                5 <= m && m <= 15,
                poly >> m == 1,
        ;
    }

    /// Multiplication by `alpha` is linear over GF(2) and stays in the field.
    pub proof fn lemma_times_alpha(self, a: u32, b: u32)
        requires
            self.has_degree(),
            a < self.size(),
            b < self.size(),
        ensures
            self.times_alpha(a ^ b) == self.times_alpha(a) ^ self.times_alpha(b),
            self.times_alpha(a) < self.size(),
            self.times_alpha(b) < self.size(),
            (a ^ b) < self.size(),
            self.times_alpha(0) == 0,
    {
        let m = self.m;
        let poly = self.poly;
        assert({
            let ya = a << 1;
            let yb = b << 1;
            let yc = (a ^ b) << 1;
            let k = 1u32 << m;
            &&& (if yc >= k { yc ^ poly } else { yc }) == (if ya >= k { ya ^ poly } else { ya }) ^ (if yb >= k { yb ^ poly } else { yb })
            &&& (if ya >= k { ya ^ poly } else { ya }) < k
            &&& (if yb >= k { yb ^ poly } else { yb }) < k
            &&& (a ^ b) < k
            &&& (0u32 << 1) == 0
            &&& k > 0
        }) by (bit_vector)
            requires
                m <= 15,
                a < (1u32 << m),
                b < (1u32 << m),
                poly >> m == 1,
        ;
    }

    pub proof fn lemma_shift_linear(self, a: u32, b: u32, i: nat)
        requires
            self.has_degree(),
            a < self.size(),
            b < self.size(),
        ensures
            self.shift(a, i) < self.size(),
            self.shift(b, i) < self.size(),
            (a ^ b) < self.size(),
            self.shift(a ^ b, i) == self.shift(a, i) ^ self.shift(b, i),
        decreases i,
    {
        self.lemma_times_alpha(a, b);
        if i > 0 {
            self.lemma_shift_linear(a, b, (i - 1) as nat);
            self.lemma_times_alpha(self.shift(a, (i - 1) as nat), self.shift(b, (i - 1) as nat));
        }
    }

    pub proof fn lemma_shift_zero(self, i: nat)
        requires
            self.has_degree(),
        ensures
            self.shift(0, i) == 0,
        decreases i,
    {
        self.lemma_size();
        self.lemma_times_alpha(0, 0);
        if i > 0 {
            self.lemma_shift_zero((i - 1) as nat);
        }
    }

    pub proof fn lemma_shift_add(self, v: u32, a: nat, b: nat)
        ensures
            self.shift(self.shift(v, a), b) == self.shift(v, a + b),
        decreases b,
    {
        if b > 0 {
            self.lemma_shift_add(v, a, (b - 1) as nat);
            assert(self.shift(v, a + b) == self.times_alpha(self.shift(v, (a + b - 1) as nat)));
        }
    }

    /// The powers of `alpha` repeat with the period of the order.
    pub proof fn lemma_pow_mod(self, i: nat)
        requires
            self.is_primitive(),
        ensures
            self.pow(i) == self.pow(i % self.order()),
        decreases i,
    {
        self.lemma_size();
        let n = self.order();
        if i >= n {
            let j = (i - n) as nat;
            self.lemma_pow_mod(j);
            self.lemma_shift_add(1, n, j);
            assert(self.pow(i) == self.pow(j));
            lemma_mod_add_multiples_vanish(j as int, n as int);
        } else {
            lemma_small_mod(i, n);
        }
    }

    /// Every power of `alpha` is a nonzero element of the field.
    pub proof fn lemma_pow_range(self, i: nat)
        requires
            self.is_primitive(),
        ensures
            0 < self.pow(i) < self.size(),
    {
        self.lemma_size();
        let n = self.order();
        let j = i % n;
        self.lemma_pow_mod(i);
        self.lemma_shift_linear(1, 1, j);
        if self.pow(j) == 0 {
            self.lemma_shift_add(1, j, (n - j) as nat);
            self.lemma_shift_zero((n - j) as nat);
            assert(false);
        }
    }

    /// Below the order, distinct exponents give distinct powers.
    pub proof fn lemma_pow_injective(self, i: nat, j: nat)
        requires
            self.is_primitive(),
            i < self.order(),
            j < self.order(),
            self.pow(i) == self.pow(j),
        ensures
            i == j,
    {
        let n = self.order();
        if i < j {
            self.lemma_shift_add(1, i, (n - j) as nat);
            self.lemma_shift_add(1, j, (n - j) as nat);
            assert(self.pow((i + n - j) as nat) == 1);
        } else if j < i {
            self.lemma_shift_add(1, j, (n - i) as nat);
            self.lemma_shift_add(1, i, (n - i) as nat);
            assert(self.pow((j + n - i) as nat) == 1);
        }
    }

    proof fn lemma_pow_image(self, c: nat)
        requires
            self.is_primitive(),
            c <= self.order(),
        ensures
            self.pow_image(c).finite(),
            self.pow_image(c).len() == c,
            self.pow_image(c).subset_of(set_int_range(1, self.size() as int)),
            forall|x: int| #[trigger]
                self.pow_image(c).contains(x) ==> exists|i: nat|
                    i < c && x == #[trigger] self.pow(i),
        decreases c,
    {
        if c > 0 {
            let d = (c - 1) as nat;
            let s = self.pow_image(d);
            self.lemma_pow_image(d);
            self.lemma_pow_range(d);
            if s.contains(self.pow(d) as int) {
                let i = choose|i: nat| i < d && self.pow(d) as int == #[trigger] self.pow(i);
                self.lemma_pow_injective(i, d);
            }
            assert forall|x: int| #[trigger] self.pow_image(c).contains(x) implies exists|i: nat|
                i < c && x == #[trigger] self.pow(i) by {
                if x == self.pow(d) {
                    assert(d < c && x == self.pow(d));
                } else {
                    assert(s.contains(x));
                    let i = choose|i: nat| i < d && x == #[trigger] self.pow(i);
                    assert(i < c && x == self.pow(i));
                }
            }
        }
    }

    /// Every nonzero element of the field is a power of `alpha`.
    pub proof fn lemma_log(self, x: u32)
        requires
            self.is_primitive(),
            0 < x < self.size(),
        ensures
            self.log(x) < self.order(),
            self.pow(self.log(x)) == x,
    {
        self.lemma_size();
        let n = self.order();
        let image = self.pow_image(n);
        let all = set_int_range(1, self.size() as int);
        self.lemma_pow_image(n);
        lemma_int_range(1, self.size() as int);
        lemma_subset_equality(image, all);
        assert(all.contains(x as int));
        assert(image.contains(x as int));
        let i = choose|i: nat| i < n && x as int == #[trigger] self.pow(i);
        assert(self.is_log(x, i));
    }

    /// The logarithm of a power is its exponent, reduced by the order.
    pub proof fn lemma_log_pow(self, i: nat)
        requires
            self.is_primitive(),
        ensures
            self.log(self.pow(i)) == i % self.order(),
    {
        self.lemma_size();
        self.lemma_pow_mod(i);
        self.lemma_pow_range(i);
        self.lemma_log(self.pow(i));
        self.lemma_pow_injective(self.log(self.pow(i)), i % self.order());
    }

    /// Exponents add under multiplication.
    pub proof fn lemma_mul_pow(self, i: nat, j: nat)
        requires
            self.is_primitive(),
        ensures
            self.mul(self.pow(i), self.pow(j)) == self.pow(i + j),
    {
        self.lemma_size();
        let n = self.order();
        self.lemma_pow_range(i);
        self.lemma_pow_range(j);
        self.lemma_log_pow(i);
        self.lemma_log_pow(j);
        lemma_add_mod_noop(i as int, j as int, n as int);
        self.lemma_pow_mod(i + j);
    }

    /// A product is in the field, and is zero only if a factor is.
    pub proof fn lemma_mul_closed(self, a: u32, b: u32)
        requires
            self.is_primitive(),
            a < self.size(),
            b < self.size(),
        ensures
            self.mul(a, b) < self.size(),
            self.mul(a, b) == 0 <==> a == 0 || b == 0,
            self.mul(a, b) == self.mul(b, a),
    {
        self.lemma_size();
        if a != 0 && b != 0 {
            self.lemma_pow_range((self.log(a) + self.log(b)) % self.order());
        }
    }

    /// Multiplying by a nonzero element moves along the powers of `alpha`.
    pub proof fn lemma_mul_is_shift(self, a: u32, b: u32)
        requires
            self.is_primitive(),
            a < self.size(),
            0 < b < self.size(),
        ensures
            self.mul(a, b) == self.shift(a, self.log(b)),
    {
        self.lemma_log(b);
        if a == 0 {
            self.lemma_shift_zero(self.log(b));
        } else {
            self.lemma_log(a);
            self.lemma_shift_add(1, self.log(a), self.log(b));
            self.lemma_pow_mod(self.log(a) + self.log(b));
        }
    }

    /// Multiplication distributes over addition.
    pub proof fn lemma_mul_distributes(self, a: u32, b: u32, c: u32)
        requires
            self.is_primitive(),
            a < self.size(),
            b < self.size(),
            c < self.size(),
        ensures
            (a ^ b) < self.size(),
            self.mul(a ^ b, c) == self.mul(a, c) ^ self.mul(b, c),
            self.mul(c, a ^ b) == self.mul(c, a) ^ self.mul(c, b),
    {
        self.lemma_times_alpha(a, b);
        self.lemma_mul_closed(a, c);
        self.lemma_mul_closed(b, c);
        self.lemma_mul_closed(a ^ b, c);
        if c == 0 {
            lemma_xor_self(0);
        } else {
            self.lemma_mul_is_shift(a, c);
            self.lemma_mul_is_shift(b, c);
            self.lemma_mul_is_shift(a ^ b, c);
            self.lemma_shift_linear(a, b, self.log(c));
        }
    }

    /// Multiplication is associative.
    pub proof fn lemma_mul_assoc(self, a: u32, b: u32, c: u32)
        requires
            self.is_primitive(),
            a < self.size(),
            b < self.size(),
            c < self.size(),
        ensures
            self.mul(self.mul(a, b), c) == self.mul(a, self.mul(b, c)),
    {
        self.lemma_size();
        self.lemma_mul_closed(a, b);
        self.lemma_mul_closed(b, c);
        if a != 0 && b != 0 && c != 0 {
            let n = self.order();
            let la = self.log(a);
            let lb = self.log(b);
            let lc = self.log(c);
            self.lemma_log(a);
            self.lemma_log(b);
            self.lemma_log(c);
            self.lemma_log_pow((la + lb) % n);
            self.lemma_log_pow((lb + lc) % n);
            lemma_mod_twice((la + lb) as int, n as int);
            lemma_mod_twice((lb + lc) as int, n as int);
            lemma_add_mod_noop((la + lb) as int, lc as int, n as int);
            lemma_add_mod_noop(la as int, (lb + lc) as int, n as int);
            lemma_small_mod(la, n);
            lemma_small_mod(lc, n);
        }
    }

    /// One is the unit of multiplication.
    pub proof fn lemma_mul_one(self, a: u32)
        requires
            self.is_primitive(),
            a < self.size(),
        ensures
            self.mul(a, 1) == a,
            self.mul(1, a) == a,
            self.log(1) == 0,
    {
        self.lemma_size();
        self.lemma_log_pow(0);
        lemma_small_mod(0, self.order());
        if a != 0 {
            self.lemma_log(a);
            lemma_small_mod(self.log(a), self.order());
        }
    }

    /// A power of `alpha` is one exactly where the order divides the
    /// exponent.
    pub proof fn lemma_pow_is_one(self, i: nat)
        requires
            self.is_primitive(),
        ensures
            self.pow(i) == 1 <==> i % self.order() == 0,
    {
        self.lemma_size();
        self.lemma_pow_mod(i);
        if self.pow(i) == 1 {
            self.lemma_pow_injective(i % self.order(), 0);
        }
    }

    /// Division by one changes nothing.
    pub proof fn lemma_div_one(self, a: u32)
        requires
            self.is_primitive(),
            a < self.size(),
        ensures
            self.div(a, 1) == a,
    {
        self.lemma_size();
        self.lemma_mul_one(a);
        if a != 0 {
            let n = self.order();
            self.lemma_log(a);
            lemma_mod_add_multiples_vanish(self.log(a) as int, n as int);
            lemma_small_mod(self.log(a), n);
        }
    }

    /// The square of a sum is the sum of the squares.
    pub proof fn lemma_sq_add(self, a: u32, b: u32)
        requires
            self.is_primitive(),
            a < self.size(),
            b < self.size(),
        ensures
            self.sq(a ^ b) == self.sq(a) ^ self.sq(b),
    {
        self.lemma_times_alpha(a, b);
        self.lemma_mul_distributes(a, b, a ^ b);
        self.lemma_mul_distributes(a, b, a);
        self.lemma_mul_distributes(a, b, b);
        self.lemma_mul_closed(a, b);
        lemma_xor_middle(self.mul(a, a), self.mul(a, b), self.mul(b, b));
    }

    /// The square of a product is the product of the squares.
    pub proof fn lemma_sq_mul(self, a: u32, b: u32)
        requires
            self.is_primitive(),
            a < self.size(),
            b < self.size(),
        ensures
            self.sq(self.mul(a, b)) == self.mul(self.sq(a), self.sq(b)),
    {
        self.lemma_mul_closed(a, b);
        self.lemma_mul_closed(a, a);
        self.lemma_mul_closed(b, b);
        if a != 0 && b != 0 {
            let la = self.log(a);
            let lb = self.log(b);
            self.lemma_log(a);
            self.lemma_log(b);
            self.lemma_mul_pow(la, lb);
            self.lemma_mul_pow(la + lb, la + lb);
            self.lemma_mul_pow(la, la);
            self.lemma_mul_pow(lb, lb);
            self.lemma_mul_pow(la + la, lb + lb);
        }
    }

    /// Only zero and one are their own squares.
    pub proof fn lemma_sq_fixed(self, c: u32)
        requires
            self.is_primitive(),
            c < self.size(),
            self.sq(c) == c,
        ensures
            c <= 1,
    {
        self.lemma_size();
        if c != 0 {
            let n = self.order();
            let l = self.log(c);
            self.lemma_log(c);
            self.lemma_mul_pow(l, l);
            self.lemma_pow_mod(l + l);
            lemma_mod_bound((l + l) as int, n as int);
            self.lemma_pow_injective((l + l) % n, l);
            if l + l < n {
                lemma_small_mod(l + l, n);
            } else {
                lemma_mod_add_multiples_vanish(l + l - n, n as int);
                lemma_small_mod((l + l - n) as nat, n);
            }
        }
    }

    /// Distinct elements have distinct squares.
    pub proof fn lemma_sq_injective(self, a: u32, b: u32)
        requires
            self.is_primitive(),
            a < self.size(),
            b < self.size(),
            self.sq(a) == self.sq(b),
        ensures
            a == b,
    {
        self.lemma_times_alpha(a, b);
        self.lemma_sq_add(a, b);
        lemma_xor_cancel(self.sq(a), self.sq(b));
        self.lemma_mul_closed(a ^ b, a ^ b);
        lemma_xor_cancel(a, b);
    }

    /// In a product of three, the first two factors may change places.
    pub proof fn lemma_mul_swap(self, a: u32, b: u32, c: u32)
        requires
            self.is_primitive(),
            a < self.size(),
            b < self.size(),
            c < self.size(),
        ensures
            self.mul(a, self.mul(b, c)) == self.mul(b, self.mul(a, c)),
    {
        self.lemma_mul_assoc(a, b, c);
        self.lemma_mul_assoc(b, a, c);
        self.lemma_mul_closed(a, b);
    }

    /// Division undoes multiplication.
    pub proof fn lemma_div_mul(self, a: u32, b: u32)
        requires
            self.is_primitive(),
            a < self.size(),
            0 < b < self.size(),
        ensures
            self.div(a, b) < self.size(),
            self.mul(self.div(a, b), b) == a,
            a != 0 ==> self.div(a, b) != 0,
    {
        self.lemma_size();
        if a != 0 {
            let n = self.order();
            let la = self.log(a);
            let lb = self.log(b);
            self.lemma_log(a);
            self.lemma_log(b);
            let q = (la + n - lb) as nat;
            self.lemma_pow_mod(q);
            self.lemma_pow_range(q);
            self.lemma_mul_pow(q, lb);
            self.lemma_pow_mod(q + lb);
            lemma_mod_add_multiples_vanish(la as int, n as int);
            lemma_small_mod(la, n);
        }
    }

    /// Two elements with the same inverse are equal.
    pub proof fn lemma_same_inverse(self, a: u32, b: u32, y: u32)
        requires
            self.is_primitive(),
            a < self.size(),
            b < self.size(),
            y < self.size(),
            self.mul(a, y) == 1,
            self.mul(b, y) == 1,
        ensures
            a == b,
    {
        self.lemma_mul_distributes(a, b, y);
        lemma_xor_self(1);
        self.lemma_times_alpha(a, b);
        self.lemma_mul_closed(a ^ b, y);
        self.lemma_mul_closed(a, y);
        lemma_xor_cancel(a, b);
    }
}

/// The executable form of GF(2^m): the table of the powers of `alpha` and
/// the table of logarithms. The entry of the logarithm table for zero is
/// never read.
#[derive(Debug)]
pub struct GaloisField {
    m: u32,
    poly: u32,
    n: u32,
    pow_tab: Vec<u32>,
    log_tab: Vec<u32>,
}

impl GaloisField {
    /// The field that the tables present.
    pub closed spec fn gf(&self) -> Gf {
        Gf { m: self.m, poly: self.poly }
    }

    /// The tables hold the powers of `alpha` and their logarithms.
    pub closed spec fn tables_ok(&self) -> bool {
        &&& self.n == self.gf().order()
        &&& self.pow_tab@.len() == self.n
        &&& self.log_tab@.len() == self.n + 1
        &&& forall|i: int|
            0 <= i < self.n ==> #[trigger] self.pow_tab@[i] == self.gf().pow(i as nat)
        &&& forall|x: int|
            0 < x <= self.n ==> #[trigger] self.log_tab@[x] == self.gf().log(x as u32)
    }

    /// The polynomial is primitive, and the tables are those of its field.
    pub open spec fn wf(&self) -> bool {
        self.gf().is_primitive() && self.tables_ok()
    }

    /// Builds the tables for the polynomial `poly` of degree `m`, if it is
    /// primitive.
    pub fn new(m: u32, poly: u32) -> (r: Option<GaloisField>)
        ensures
            r.is_some() <==> (Gf { m, poly }).is_primitive(),
            r matches Some(f) ==> f.wf() && f.gf() == (Gf { m, poly }),
    {
        if m < 5 || m > 15 {
            return None;
        }
        if poly >> m != 1 {
            return None;
        }
        let ghost gf = Gf { m, poly };
        proof {
            gf.lemma_size();
        }
        let k: u32 = 1u32 << m;
        let n: u32 = k - 1;
        let mut pow_tab: Vec<u32> = Vec::new();
        let mut log_tab: Vec<u32> = vec![0u32; k as usize];
        let mut x: u32 = 1;
        let mut i: u32 = 0;
        while i < n
            invariant
                gf == (Gf { m, poly }),
                gf.has_degree(),
                k == gf.size(),
                n == k - 1,
                32 <= k <= 32768,
                i <= n,
                x == gf.pow(i as nat),
                x < k,
                pow_tab@.len() == i,
                log_tab@.len() == k,
                forall|j: int| 0 <= j < i ==> #[trigger] pow_tab@[j] == gf.pow(j as nat),
                forall|j: nat| 0 < j < i ==> gf.pow(j) != 1,
                forall|j: nat|
                    j < i ==> {
                        let y = #[trigger] gf.pow(j);
                        y < k && log_tab@[y as int] < i && gf.pow(log_tab@[y as int] as nat) == y
                    },
            decreases n - i,
        {
            if i > 0 && x == 1 {
                return None;
            }
            pow_tab.push(x);
            log_tab[x as usize] = i;
            proof {
                gf.lemma_times_alpha(x, x);
            }
            let y = x << 1;
            x = if y >= k {
                y ^ poly
            } else {
                y
            };
            i += 1;
        }
        if x != 1 {
            return None;
        }
        proof {
            assert(gf.is_primitive());
            assert forall|v: int| 0 < v <= n implies #[trigger] log_tab@[v] == gf.log(v as u32) by {
                gf.lemma_log(v as u32);
                let j = gf.log(v as u32);
                assert(gf.pow(j) == v as u32);
                gf.lemma_pow_injective(log_tab@[v] as nat, j);
            }
        }
        Some(GaloisField { m, poly, n, pow_tab, log_tab })
    }

    /// The degree `m` of the field.
    pub fn degree(&self) -> (r: u32)
        requires
            self.wf(),
        ensures
            r == self.gf().m,
            5 <= r <= 15,
    {
        self.m
    }

    /// The number of nonzero elements, `2^m - 1`.
    pub fn order(&self) -> (r: u32)
        requires
            self.wf(),
        ensures
            r == self.gf().order(),
            r + 1 == self.gf().size(),
            31 <= r <= 32767,
    {
        proof {
            self.gf().lemma_size();
        }
        self.n
    }

    /// `alpha^i`.
    pub fn exp(&self, i: u32) -> (r: u32)
        requires
            self.wf(),
        ensures
            r == self.gf().pow(i as nat),
            0 < r < self.gf().size(),
    {
        proof {
            self.gf().lemma_size();
            self.gf().lemma_pow_mod(i as nat);
            self.gf().lemma_pow_range(i as nat);
        }
        self.pow_tab[(i % self.n) as usize]
    }

    /// The logarithm of a nonzero element.
    pub fn log(&self, x: u32) -> (r: u32)
        requires
            self.wf(),
            0 < x < self.gf().size(),
        ensures
            r == self.gf().log(x),
            r < self.gf().order(),
    {
        proof {
            self.gf().lemma_size();
            self.gf().lemma_log(x);
        }
        self.log_tab[x as usize]
    }

    /// The product of two elements.
    pub fn mul(&self, a: u32, b: u32) -> (r: u32)
        requires
            self.wf(),
            a < self.gf().size(),
            b < self.gf().size(),
        ensures
            r == self.gf().mul(a, b),
            r < self.gf().size(),
    {
        if a == 0 || b == 0 {
            return 0;
        }
        let la = self.log(a);
        let lb = self.log(b);
        proof {
            self.gf().lemma_size();
            self.gf().lemma_mul_closed(a, b);
        }
        self.pow_tab[((la + lb) % self.n) as usize]
    }

    /// The quotient of an element by a nonzero element.
    pub fn div(&self, a: u32, b: u32) -> (r: u32)
        requires
            self.wf(),
            a < self.gf().size(),
            0 < b < self.gf().size(),
        ensures
            r == self.gf().div(a, b),
            r < self.gf().size(),
    {
        if a == 0 {
            return 0;
        }
        let la = self.log(a);
        let lb = self.log(b);
        proof {
            self.gf().lemma_size();
            self.gf().lemma_pow_range(((la + self.n - lb) % (self.n as int)) as nat);
        }
        self.pow_tab[((la + self.n - lb) % self.n) as usize]
    }
}

} // verus!
