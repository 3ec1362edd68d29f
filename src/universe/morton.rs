//! The Morton (Z-order) spatial index: the bits of a column and a row
//! interleaved into one flat index, and its inverse.
use std::collections::HashMap;
use vstd::arithmetic::div_mod::lemma_fundamental_div_mod as fdm;
use vstd::arithmetic::div_mod::lemma_fundamental_div_mod_converse as conv;
use vstd::arithmetic::power2::lemma_pow2_unfold;
use vstd::arithmetic::power2::pow2;
use vstd::prelude::*;

verus! {

/// `n` with a zero bit inserted above each of its bits: bit `i` of `n` moves
/// to bit `2 * i`.
pub open spec fn spread(n: nat) -> nat
    decreases n,
{
    if n == 0 {
        0
    } else {
        spread(n / 2) * 4 + n % 2
    }
}

/// The bits of `n` at even positions, packed together: bit `2 * i` of `n`
/// moves to bit `i`.
pub open spec fn evens(n: nat) -> nat
    decreases n,
{
    if n == 0 {
        0
    } else {
        evens(n / 4) * 2 + n % 2
    }
}

/// The Z-order index of the point `(x, y)`: the bits of `x` at even
/// positions, those of `y` at odd positions.
pub open spec fn morton(x: nat, y: nat) -> nat {
    spread(x) + 2 * spread(y)
}

/// The point whose Z-order index is `index`.
pub open spec fn unmorton(index: nat) -> (nat, nat) {
    (evens(index), evens(index / 2))
}


#[verifier::inline]
pub open spec fn spread_word(n: u64) -> u64 {
    let a = (n ^ (n << 16u64)) & 0x0000_ffff_0000_ffffu64;
    let b = (a ^ (a << 8u64)) & 0x00ff_00ff_00ff_00ffu64;
    let c = (b ^ (b << 4u64)) & 0x0f0f_0f0f_0f0f_0f0fu64;
    let d = (c ^ (c << 2u64)) & 0x3333_3333_3333_3333u64;
    (d ^ (d << 1u64)) & 0x5555_5555_5555_5555u64
}

#[verifier::inline]
pub open spec fn evens_word(n: u64) -> u64 {
    let a = n & 0x5555_5555_5555_5555u64;
    let a = a | (a >> 1u64);
    let b = a & 0x3333_3333_3333_3333u64;
    let b = b | (b >> 2u64);
    let c = b & 0x0f0f_0f0f_0f0f_0f0fu64;
    let c = c | (c >> 4u64);
    let d = c & 0x00ff_00ff_00ff_00ffu64;
    let d = d | (d >> 8u64);
    let e = d & 0x0000_ffff_0000_ffffu64;
    let e = e | (e >> 16u64);
    e & 0x0000_0000_ffff_ffffu64
}

proof fn lemma_spread_word_step(n: u64)
    by (bit_vector)
    requires
        n < 0x1_0000_0000,
    ensures
        spread_word(n) == spread_word(n >> 1u64) * 4 + (n & 1u64),
        spread_word(n >> 1u64) < 0x4000_0000_0000_0000,
        n == 0 ==> spread_word(n) == 0,
{
}

proof fn lemma_evens_word_step(n: u64)
    by (bit_vector)
    ensures
        evens_word(n) == evens_word(n >> 2u64) * 2 + (n & 1u64),
        n == 0 ==> evens_word(n) == 0,
{
}

proof fn lemma_spread_word(n: u64)
    requires
        n < 0x1_0000_0000,
    ensures
        spread_word(n) == spread(n as nat),
    decreases n,
{
    lemma_spread_word_step(n);
    if n != 0 {
        assert(n >> 1u64 == n / 2) by (bit_vector);
        assert(n & 1u64 == n % 2) by (bit_vector);
        lemma_spread_word(n >> 1u64);
    }
}

proof fn lemma_evens_word(n: u64)
    ensures
        evens_word(n) == evens(n as nat),
    decreases n,
{
    lemma_evens_word_step(n);
    if n != 0 {
        assert(n >> 2u64 == n / 4) by (bit_vector);
        assert(n & 1u64 == n % 2) by (bit_vector);
        lemma_evens_word(n >> 2u64);
    }
}

/// The exclusive bound on a coordinate: its interleaving takes twice its bits,
/// which must fit in a `usize`.
pub open spec fn coord_limit() -> nat {
    if usize::BITS == 64 {
        0x1_0000_0000
    } else {
        0x1_0000
    }
}

proof fn lemma_spread_word_small(n: u64)
    by (bit_vector)
    requires
        n < 0x1_0000,
    ensures
        spread_word(n) < 0x1_0000_0000,
{
}

/// Spreads the low bits of `n` apart, leaving a zero bit above each.
pub fn interleave_with_zeros(n: usize) -> (r: usize)
    requires
        (n as nat) < coord_limit(),
    ensures
        r as nat == spread(n as nat),
{
    let mut m = n as u64;
    proof {
        lemma_spread_word(m);
        if usize::BITS != 64 {
            lemma_spread_word_small(m);
        }
    }
    let ghost m0 = m;
    m = (m ^ (m << 16u64)) & 0x0000_ffff_0000_ffff;
    m = (m ^ (m << 8u64)) & 0x00ff_00ff_00ff_00ff;
    m = (m ^ (m << 4u64)) & 0x0f0f_0f0f_0f0f_0f0f;
    m = (m ^ (m << 2u64)) & 0x3333_3333_3333_3333;
    let r = (m ^ (m << 1u64)) & 0x5555_5555_5555_5555;
    assert(r == spread_word(m0));
    r as usize
}

proof fn lemma_evens_word_bound(n: u64)
    by (bit_vector)
    ensures
        evens_word(n) <= n,
{
}

/// Gathers the bits of `n` at even positions into the low half.
pub fn unravel(n: usize) -> (r: usize)
    ensures
        r as nat == evens(n as nat),
{
    let mut m = n as u64;
    proof {
        lemma_evens_word(m);
        lemma_evens_word_bound(m);
    }
    let ghost m0 = m;
    m &= 0x5555_5555_5555_5555;
    m |= m >> 1u64;
    m &= 0x3333_3333_3333_3333;
    m |= m >> 2u64;
    m &= 0x0f0f_0f0f_0f0f_0f0f;
    m |= m >> 4u64;
    m &= 0x00ff_00ff_00ff_00ff;
    m |= m >> 8u64;
    m &= 0x0000_ffff_0000_ffff;
    m |= m >> 16u64;
    let r = m & 0x0000_0000_ffff_ffff;
    assert(r == evens_word(m0));
    r as usize
}

proof fn lemma_or_is_add(a: u64, b: u64)
    by (bit_vector)
    requires
        a & 0xaaaa_aaaa_aaaa_aaaau64 == 0,
        b & 0xaaaa_aaaa_aaaa_aaaau64 == 0,
    ensures
        a | (b << 1u64) == a + b * 2,
        a < 0x1_0000_0000 && b < 0x1_0000_0000 ==> a + b * 2 < 0x1_0000_0000,
{
}

proof fn lemma_spread_word_even(n: u64)
    by (bit_vector)
    ensures
        spread_word(n) & 0xaaaa_aaaa_aaaa_aaaau64 == 0,
{
}

/// The Z-order index of `(x, y)`: the bits of `x` at even positions, those of
/// `y` at odd ones.
pub fn morton2(x: usize, y: usize) -> (r: usize)
    requires
        (x as nat) < coord_limit(),
        (y as nat) < coord_limit(),
    ensures
        r as nat == morton(x as nat, y as nat),
{
    let a = interleave_with_zeros(x) as u64;
    let b = interleave_with_zeros(y) as u64;
    proof {
        lemma_spread_word(x as u64);
        lemma_spread_word(y as u64);
        lemma_spread_word_even(x as u64);
        lemma_spread_word_even(y as u64);
        lemma_or_is_add(a, b);
        if usize::BITS != 64 {
            lemma_spread_word_small(x as u64);
            lemma_spread_word_small(y as u64);
        }
    }
    (a | (b << 1u64)) as usize
}

/// The point whose Z-order index is `index`.
pub fn unravel_point(index: usize) -> (r: (usize, usize))
    ensures
        (r.0 as nat, r.1 as nat) == unmorton(index as nat),
{
    let x = unravel(index);
    let y = unravel(index >> 1usize);
    assert(index >> 1usize == index / 2) by (bit_vector);
    (x, y)
}

proof fn lemma_morton_split(x: nat, y: nat)
    ensures
        morton(x, y) == 4 * morton(x / 2, y / 2) + x % 2 + 2 * (y % 2),
{
    if x > 0 {
        assert(spread(x) == spread(x / 2) * 4 + x % 2);
    }
    if y > 0 {
        assert(spread(y) == spread(y / 2) * 4 + y % 2);
    }
}

proof fn lemma_quarter(n: nat, m: nat, a: nat, b: nat)
    requires
        a < 2,
        b < 2,
        n == 4 * m + a + 2 * b,
    ensures
        n / 4 == m,
        n % 2 == a,
        n / 2 == 2 * m + b,
        (n / 2) / 4 == m / 2,
        (n / 2) % 2 == b,
{
    conv(n as int, 4, m as int, (a + 2 * b) as int);
    conv(n as int, 2, (2 * m + b) as int, a as int);
    let h = 2 * m + b;
    fdm(m as int, 2);
    conv(h as int, 4, (m / 2) as int, (2 * (m % 2) + b) as int);
    conv(h as int, 2, m as int, b as int);
}

/// Decoding a Z-order index gives back the point that was encoded.
pub proof fn lemma_unmorton_morton(x: nat, y: nat)
    ensures
        unmorton(morton(x, y)) == (x, y),
    decreases x + y,
{
    let n = morton(x, y);
    lemma_morton_split(x, y);
    if x + y > 0 {
        let m = morton(x / 2, y / 2);
        lemma_unmorton_morton(x / 2, y / 2);
        lemma_quarter(n, m, x % 2, y % 2);
        assert(evens(n) == evens(n / 4) * 2 + n % 2);
        assert(evens(n / 2) == evens((n / 2) / 4) * 2 + (n / 2) % 2);
    }
}

/// Encoding the point that a Z-order index decodes to gives back the index.
pub proof fn lemma_morton_unmorton(index: nat)
    ensures
        morton(unmorton(index).0, unmorton(index).1) == index,
    decreases index,
{
    if index > 0 {
        let q = index / 4;
        let (x, y) = unmorton(index);
        let (qx, qy) = unmorton(q);
        lemma_morton_unmorton(q);
        assert(index / 2 == 2 * q + (index % 4) / 2 && (index / 2) / 4 == q / 2 && (index / 2) % 2 == (index % 4) / 2 && index % 2 == (index % 4) % 2) by {
            let r = index % 4;
            fdm(index as int, 4);
            conv(index as int, 2, (2 * q + r / 2) as int, (r % 2) as int);
            conv((index / 2) as int, 4, (q / 2) as int, (2 * (q % 2) + r / 2) as int);
            conv((index / 2) as int, 2, q as int, (r / 2) as int);
        }
        assert(x == 2 * qx + index % 2);
        assert(y == 2 * qy + (index % 4) / 2);
        lemma_morton_split(x, y);
        assert(x / 2 == qx && x % 2 == index % 2);
        assert(y / 2 == qy && y % 2 == (index % 4) / 2);
    }
}

proof fn lemma_small_words(x: u64, y: u64, i: u64)
    by (bit_vector)
    requires
        x < 16,
        y < 16,
        i < 64,
    ensures
        spread_word(x) + 2 * spread_word(y) < 256,
        evens_word(i) < 8,
        evens_word(i >> 1u64) < 8,
{
}

/// Inside a 16 by 16 block, points and indices correspond: each point below
/// 16 has an index below 256, and each index below 64 names a point below 8.
pub proof fn lemma_block_indices(x: nat, y: nat, i: nat)
    requires
        x < 16,
        y < 16,
        i < 64,
    ensures
        morton(x, y) < 256,
        unmorton(i).0 < 8,
        unmorton(i).1 < 8,
{
    let (a, b, c) = (x as u64, y as u64, i as u64);
    lemma_spread_word(a);
    lemma_spread_word(b);
    lemma_evens_word(c);
    lemma_evens_word(c >> 1u64);
    lemma_small_words(a, b, c);
    assert(c >> 1u64 == c / 2) by (bit_vector);
}

/// Below `2^k`, adding `2^k` to a coordinate adds `4^k` to its spread, and
/// the spread stays below `4^k / 3`.
proof fn lemma_spread_shift(x: nat, k: nat)
    requires
        x < pow2(k),
    ensures
        spread(x + pow2(k)) == spread(x) + pow2(k) * pow2(k),
        3 * spread(x) < pow2(k) * pow2(k),
    decreases k,
{
    if k == 0 {
        assert(pow2(0) == 1) by {
            vstd::arithmetic::power2::lemma2_to64();
        }
        assert(x == 0);
        assert(spread(1) == spread(0) * 4 + 1);
    } else {
        lemma_pow2_unfold(k);
        let h = pow2((k - 1) as nat);
        lemma_spread_shift(x / 2, (k - 1) as nat);
        assert((x + 2 * h) / 2 == x / 2 + h);
        assert((x + 2 * h) % 2 == x % 2);
        assert(spread(x + 2 * h) == spread(x / 2 + h) * 4 + x % 2);
        if x > 0 {
            assert(spread(x) == spread(x / 2) * 4 + x % 2);
        }
        assert((2 * h) * (2 * h) == 4 * (h * h)) by (nonlinear_arith);
    }
}

/// From `2^k` up, the spread is at least `4^k`.
proof fn lemma_spread_lower(x: nat, k: nat)
    requires
        x >= pow2(k),
    ensures
        spread(x) >= pow2(k) * pow2(k),
    decreases k, x,
{
    if k == 0 {
        vstd::arithmetic::power2::lemma2_to64();
        if x % 2 == 0 {
            assert(x / 2 >= 1);
            lemma_spread_lower(x / 2, 0);
        }
    } else {
        lemma_pow2_unfold(k);
        let h = pow2((k - 1) as nat);
        lemma_spread_lower(x / 2, (k - 1) as nat);
        assert((2 * h) * (2 * h) == 4 * (h * h)) by (nonlinear_arith);
    }
}

/// Within a square of side `2 * 2^k`, the Z-order index of a point is the
/// rank of its quadrant times `4^k`, plus its index within the quadrant.
pub proof fn lemma_morton_quadrant(x: nat, y: nat, k: nat)
    requires
        x < 2 * pow2(k),
        y < 2 * pow2(k),
    ensures
        morton(x, y) == (x / pow2(k) + 2 * (y / pow2(k))) * (pow2(k) * pow2(k)) + morton(
            x % pow2(k),
            y % pow2(k),
        ),
        morton(x % pow2(k), y % pow2(k)) < pow2(k) * pow2(k),
{
    let h = pow2(k);
    vstd::arithmetic::power2::lemma_pow2_pos(k);
    let (xl, yl) = (x % h, y % h);
    assert(x == (x / h) * h + xl && xl < h) by {
        fdm(x as int, h as int);
        vstd::arithmetic::div_mod::lemma_mod_pos_bound(x as int, h as int);
        assert((x / h) * h == h * (x / h)) by (nonlinear_arith);
    }
    assert(y == (y / h) * h + yl && yl < h) by {
        fdm(y as int, h as int);
        vstd::arithmetic::div_mod::lemma_mod_pos_bound(y as int, h as int);
        assert((y / h) * h == h * (y / h)) by (nonlinear_arith);
    }
    lemma_spread_shift(xl, k);
    lemma_spread_shift(yl, k);
    assert(x / h < 2) by {
        if x / h >= 2 {
            assert((x / h) * h >= 2 * h) by (nonlinear_arith)
                requires
                    x / h >= 2,
                    h > 0,
            ;
        }
    }
    assert(y / h < 2) by {
        if y / h >= 2 {
            assert((y / h) * h >= 2 * h) by (nonlinear_arith)
                requires
                    y / h >= 2,
                    h > 0,
            ;
        }
    }
    let hh = h * h;
    let qx = x / h;
    let qy = y / h;
    assert(x == qx * h + xl);
    assert(y == qy * h + yl);
    if qx == 1 {
        assert(qx * h == h) by (nonlinear_arith)
            requires
                qx == 1,
        ;
        assert(x == xl + h);
        assert(spread(x) == spread(xl) + hh);
    } else {
        assert(qx == 0);
        assert(qx * h == 0) by (nonlinear_arith)
            requires
                qx == 0,
        ;
        assert(x == xl);
    }
    if qy == 1 {
        assert(qy * h == h) by (nonlinear_arith)
            requires
                qy == 1,
        ;
        assert(y == yl + h);
        assert(spread(y) == spread(yl) + hh);
    } else {
        assert(qy == 0);
        assert(qy * h == 0) by (nonlinear_arith)
            requires
                qy == 0,
        ;
        assert(y == yl);
    }
    assert(spread(x) == spread(xl) + qx * hh) by (nonlinear_arith)
        requires
            qx == 0 || qx == 1,
            qx == 1 ==> spread(x) == spread(xl) + hh,
            qx == 0 ==> x == xl,
    ;
    assert(2 * spread(y) == 2 * spread(yl) + 2 * qy * hh) by (nonlinear_arith)
        requires
            qy == 0 || qy == 1,
            qy == 1 ==> spread(y) == spread(yl) + hh,
            qy == 0 ==> y == yl,
    ;
    assert((qx + 2 * qy) * hh == qx * hh + 2 * qy * hh) by (nonlinear_arith);
}

/// An index below `4^k` names a point of the square of side `2^k`.
pub proof fn lemma_unmorton_bound(i: nat, k: nat)
    requires
        i < pow2(k) * pow2(k),
    ensures
        unmorton(i).0 < pow2(k),
        unmorton(i).1 < pow2(k),
{
    let (x, y) = unmorton(i);
    lemma_morton_unmorton(i);
    if x >= pow2(k) {
        lemma_spread_lower(x, k);
    }
    if y >= pow2(k) {
        lemma_spread_lower(y, k);
    }
}

/// A per-grid table of Z-order indices, filled on first use. The entry for
/// `(x, y)` sits at `x * width + y`.
#[derive(Debug, Clone)]
pub struct MortonSpace {
    width: usize,
    height: usize,
    table: Vec<Option<usize>>,
}

impl MortonSpace {
    pub closed spec fn spec_width(&self) -> nat {
        self.width as nat
    }

    pub closed spec fn spec_height(&self) -> nat {
        self.height as nat
    }

    /// Whether `(x, y)` has a slot in the table.
    pub open spec fn in_table(&self, x: nat, y: nat) -> bool {
        y < self.spec_width() && x * self.spec_width() + y < self.spec_width() * self.spec_height()
    }

    /// Whether the slot of `(x, y)` is filled.
    pub closed spec fn cached(&self, x: nat, y: nat) -> bool {
        self.table@[x * self.width + y] is Some
    }

    /// Every filled slot holds the Z-order index of its own point.
    pub closed spec fn wf(&self) -> bool {
        &&& self.table.len() == self.width * self.height
        &&& forall|i: int|
            0 <= i < self.table.len() && #[trigger] self.table@[i] is Some ==> self.width > 0
                && self.table@[i]->0 as nat == morton((i / self.width as int) as nat, (i % self.width as int) as nat)
    }

    pub fn new(width: usize, height: usize) -> (r: Self)
        requires
            width * height <= usize::MAX,
        ensures
            r.wf(),
            r.spec_width() == width,
            r.spec_height() == height,
            forall|x: nat, y: nat| r.in_table(x, y) ==> !#[trigger] r.cached(x, y),
    {
        let n = width * height;
        let mut table: Vec<Option<usize>> = Vec::new();
        let mut i: usize = 0;
        while i < n
            invariant
                i <= n,
                table.len() == i,
                forall|j: int| 0 <= j < i ==> #[trigger] table@[j] is None,
            decreases n - i,
        {
            table.push(None);
            i += 1;
        }
        MortonSpace { width, height, table }
    }

    proof fn lemma_slot(&self, x: nat, y: nat)
        requires
            self.in_table(x, y),
        ensures
            (x * self.width + y) / (self.width as int) == x,
            (x * self.width + y) % (self.width as int) == y,
    {
        conv((x * self.width + y) as int, self.width as int, x as int, y as int);
    }

    /// Whether `(x, y)` has a slot in the table.
    pub fn in_range(&self, x: usize, y: usize) -> (r: bool)
        requires
            self.wf(),
        ensures
            r == self.in_table(x as nat, y as nat),
    {
        if y >= self.width {
            return false;
        }
        match x.checked_mul(self.width) {
            Some(p) => match p.checked_add(y) {
                Some(i) => i < self.table.len(),
                None => false,
            },
            None => false,
        }
    }

    /// The Z-order index of `(x, y)`, recorded in the table for later calls.
    pub fn morton2_cache(&mut self, x: usize, y: usize) -> (r: usize)
        requires
            old(self).wf(),
            old(self).in_table(x as nat, y as nat),
            (x as nat) < coord_limit(),
            (y as nat) < coord_limit(),
        ensures
            final(self).wf(),
            final(self).spec_width() == old(self).spec_width(),
            final(self).spec_height() == old(self).spec_height(),
            r as nat == morton(x as nat, y as nat),
            final(self).cached(x as nat, y as nat),
            forall|x2: nat, y2: nat|
                old(self).in_table(x2, y2) && (x2 != x || y2 != y) ==> #[trigger] final(self).cached(x2, y2)
                    == old(self).cached(x2, y2),
    {
        proof {
            self.lemma_slot(x as nat, y as nat);
            assert forall|x2: nat, y2: nat|
                old(self).in_table(x2, y2) && (x2 != x || y2 != y) implies x2 * self.width + y2
                != x * self.width + y by {
                old(self).lemma_slot(x2, y2);
            }
        }
        let index = x * self.width + y;
        match self.table[index] {
            Some(r) => r,
            None => {
                let r = morton2(x, y);
                self.table.set(index, Some(r));
                r
            },
        }
    }

    /// The Z-order index of `(x, y)`, from the table where it is there.
    pub fn morton2(&self, x: usize, y: usize) -> (r: usize)
        requires
            self.wf(),
            self.in_table(x as nat, y as nat),
            (x as nat) < coord_limit(),
            (y as nat) < coord_limit(),
        ensures
            r as nat == morton(x as nat, y as nat),
    {
        proof {
            self.lemma_slot(x as nat, y as nat);
        }
        match self.table[x * self.width + y] {
            Some(r) => r,
            None => morton2(x, y),
        }
    }

    /// Whether the index of `(x, y)` is already recorded.
    pub fn valid(&self, x: usize, y: usize) -> (r: bool)
        requires
            self.wf(),
            self.in_table(x as nat, y as nat),
        ensures
            r == self.cached(x as nat, y as nat),
    {
        self.table[x * self.width + y].is_some()
    }
}

/// Morton tables, one per grid size.
#[derive(Debug, Clone)]
pub struct MortonCache {
    pub map: HashMap<(usize, usize), MortonSpace>,
}

impl Default for MortonCache {
    fn default() -> (r: Self)
        ensures
            r.map@ == Map::<(usize, usize), MortonSpace>::empty(),
    {
        MortonCache { map: HashMap::new() }
    }
}

} // verus!
