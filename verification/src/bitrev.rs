//! The index permutations the engine is built on: plain bit-reversal over a
//! fixed width, and the circle-domain variant that additionally complements
//! the low bits below every set bit (taken low to high), which brings sibling
//! pairs of the circle domain next to each other.
use vstd::prelude::*;
use vstd::arithmetic::power2::{
    pow2, lemma_pow2_unfold, lemma_pow2_adds, lemma_pow2_pos, lemma2_to64,
};
use vstd::arithmetic::power2::lemma_pow2_strictly_increases;

verus! {

/// Reversal of the low `bits` binary digits of `i` (higher digits are dropped).
pub open spec fn bitrev_spec(i: nat, bits: nat) -> nat
    decreases bits,
{
    if bits == 0 {
        0
    } else {
        (i % 2) * pow2((bits - 1) as nat) + bitrev_spec(i / 2, (bits - 1) as nat)
    }
}

pub proof fn lemma_bitrev_bound(i: nat, bits: nat)
    ensures
        bitrev_spec(i, bits) < pow2(bits),
    decreases bits,
{
    lemma_pow2_pos(bits);
    if bits > 0 {
        lemma_bitrev_bound(i / 2, (bits - 1) as nat);
        lemma_pow2_unfold(bits);
        let h = pow2((bits - 1) as nat);
        if i % 2 == 0 {
            assert((i % 2) * h == 0);
        } else {
            assert((i % 2) * h == h);
        }
    }
}

/// Complement of the low `k` bits of `x`: what XOR with 2^k - 1 does.
pub open spec fn low_bits_flip(x: nat, k: nat) -> nat {
    (x - (x % pow2(k)) + (pow2(k) - 1 - (x % pow2(k)))) as nat
}

pub proof fn lemma_low_bits_flip_bound(x: nat, k: nat, b: nat)
    requires
        k <= b,
        x < pow2(b),
    ensures
        low_bits_flip(x, k) < pow2(b),
{
    lemma_pow2_pos(k);
    lemma_pow2_pos(b);
    lemma_pow2_adds(k, (b - k) as nat);
    let q = (x as int) / (pow2(k) as int);
    vstd::arithmetic::div_mod::lemma_fundamental_div_mod(x as int, pow2(k) as int);
    assert(x - (x % pow2(k)) == pow2(k) * q);
    assert(q < pow2((b - k) as nat)) by {
        if q >= pow2((b - k) as nat) {
            assert(pow2(k) * q >= pow2(k) * pow2((b - k) as nat)) by (nonlinear_arith)
                requires
                    q >= pow2((b - k) as nat),
                    pow2(k) > 0,
            ;
            assert(x >= pow2(k) * q >= pow2(b));
        }
    }
    assert(pow2(k) * q <= pow2(k) * (pow2((b - k) as nat) - 1)) by (nonlinear_arith)
        requires
            q <= pow2((b - k) as nat) - 1,
            pow2(k) > 0,
    ;
    assert(pow2(k) * (pow2((b - k) as nat) - 1) == pow2(b) - pow2(k)) by (nonlinear_arith)
        requires
            pow2(k) * pow2((b - k) as nat) == pow2(b),
    ;
}

/// The circle adjustment after processing bit positions 0..i, low to high:
/// whenever the current value has bit p set, its low p bits are complemented.
pub open spec fn circle_adjust(x: nat, i: nat) -> nat
    decreases i,
{
    if i == 0 {
        x
    } else {
        let p = (i - 1) as nat;
        let y = circle_adjust(x, p);
        if (y / pow2(p)) % 2 == 1 {
            low_bits_flip(y, p)
        } else {
            y
        }
    }
}

pub proof fn lemma_circle_adjust_bound(x: nat, i: nat, b: nat)
    requires
        i <= b,
        x < pow2(b),
    ensures
        circle_adjust(x, i) < pow2(b),
    decreases i,
{
    if i > 0 {
        let p = (i - 1) as nat;
        lemma_circle_adjust_bound(x, p, b);
        lemma_low_bits_flip_bound(circle_adjust(x, p), p, b);
    }
}

/// The inverse adjustment: the same flips, applied for bit positions
/// taken high to low.
pub open spec fn circle_unadjust(x: nat, i: nat) -> nat
    decreases i,
{
    if i == 0 {
        x
    } else {
        let p = (i - 1) as nat;
        let y = if (x / pow2(p)) % 2 == 1 {
            low_bits_flip(x, p)
        } else {
            x
        };
        circle_unadjust(y, p)
    }
}

pub proof fn lemma_circle_unadjust_bound(x: nat, i: nat, b: nat)
    requires
        i <= b,
        x < pow2(b),
    ensures
        circle_unadjust(x, i) < pow2(b),
    decreases i,
{
    if i > 0 {
        let p = (i - 1) as nat;
        lemma_low_bits_flip_bound(x, p, b);
        let y = if (x / pow2(p)) % 2 == 1 {
            low_bits_flip(x, p)
        } else {
            x
        };
        lemma_circle_unadjust_bound(y, p, b);
    }
}

/// Index transform carrying a circle-bit-reversed position back to the
/// natural position: plain bit-reversal, then the low-to-high adjustment.
pub open spec fn circle_bitrev_spec(i: nat, bits: nat) -> nat {
    circle_adjust(bitrev_spec(i, bits), bits)
}

/// The inverse transform: the high-to-low adjustment, then plain bit-reversal.
pub open spec fn circle_bitrev_inv_spec(i: nat, bits: nat) -> nat {
    bitrev_spec(circle_unadjust(i, bits), bits)
}

/// 2^k as a machine integer.
pub fn pow2_usize(k: usize) -> (r: usize)
    requires
        k <= 31,
    ensures
        r as nat == pow2(k as nat),
{
    let mut r: usize = 1;
    let mut j: usize = 0;
    proof {
        lemma2_to64();
    }
    while j < k
        invariant
            j <= k,
            k <= 31,
            r as nat == pow2(j as nat),
            pow2(31) == 0x80000000,
        decreases k - j,
    {
        proof {
            lemma_pow2_unfold((j + 1) as nat);
            if (j + 1) as nat <= 31 {
                if (j + 1) < 31 {
                    lemma_pow2_strictly_increases((j + 1) as nat, 31);
                }
            }
        }
        r = r * 2;
        j = j + 1;
    }
    r
}

/// Reverses the low `bits` binary digits of `i`.
pub fn reverse_bits_len(i: usize, bits: usize) -> (r: usize)
    requires
        bits <= 31,
    ensures
        r as nat == bitrev_spec(i as nat, bits as nat),
        r < pow2(bits as nat),
    decreases bits,
{
    proof {
        lemma_bitrev_bound(i as nat, bits as nat);
    }
    if bits == 0 {
        0
    } else {
        let half = pow2_usize(bits - 1);
        let rest = reverse_bits_len(i / 2, bits - 1);
        proof {
            lemma_pow2_unfold(bits as nat);
            lemma2_to64();
            if ((bits - 1) as nat) < 31 {
                lemma_pow2_strictly_increases((bits - 1) as nat, 31);
            }
            assert(i % 2 == 0 || i % 2 == 1);
            if i % 2 == 0 {
                assert((i % 2) * half == 0);
            } else {
                assert((i % 2) * half == half);
            }
        }
        (i % 2) * half + rest
    }
}

/// The low-to-high flip pass, after plain bit-reversal has been applied.
fn circle_adjust_exec(x: usize, i: usize, bits: usize) -> (r: usize)
    requires
        i <= bits <= 31,
        (x as nat) < pow2(bits as nat),
    ensures
        r as nat == circle_adjust(x as nat, i as nat),
        r < pow2(bits as nat),
    decreases i,
{
    proof {
        lemma_circle_adjust_bound(x as nat, i as nat, bits as nat);
    }
    if i == 0 {
        x
    } else {
        let y = circle_adjust_exec(x, i - 1, bits);
        let p = pow2_usize(i - 1);
        proof {
            lemma_circle_adjust_bound(x as nat, (i - 1) as nat, bits as nat);
            lemma_pow2_pos((i - 1) as nat);
        }
        if (y / p) % 2 == 1 {
            proof {
                lemma_flip_exec_bounds(y as nat, (i - 1) as nat, bits as nat);
                lemma2_to64();
                if (bits as nat) < 31 {
                    lemma_pow2_strictly_increases(bits as nat, 31);
                }
            }
            y - (y % p) + (p - 1 - (y % p))
        } else {
            y
        }
    }
}

/// The high-to-low flip pass of the inverse transform.
fn circle_unadjust_exec(x: usize, i: usize, bits: usize) -> (r: usize)
    requires
        i <= bits <= 31,
        (x as nat) < pow2(bits as nat),
    ensures
        r as nat == circle_unadjust(x as nat, i as nat),
        r < pow2(bits as nat),
    decreases i,
{
    proof {
        lemma_circle_unadjust_bound(x as nat, i as nat, bits as nat);
    }
    if i == 0 {
        x
    } else {
        let p = pow2_usize(i - 1);
        proof {
            lemma_pow2_pos((i - 1) as nat);
            lemma_low_bits_flip_bound(x as nat, (i - 1) as nat, bits as nat);
        }
        let y = if (x / p) % 2 == 1 {
            proof {
                lemma_flip_exec_bounds(x as nat, (i - 1) as nat, bits as nat);
                lemma2_to64();
                if (bits as nat) < 31 {
                    lemma_pow2_strictly_increases(bits as nat, 31);
                }
            }
            x - (x % p) + (p - 1 - (x % p))
        } else {
            x
        };
        circle_unadjust_exec(y, i - 1, bits)
    }
}

/// Carries a circle-bit-reversed row position back to its natural position.
pub fn circle_bitrev_idx(idx: usize, bits: usize) -> (r: usize)
    requires
        bits <= 31,
    ensures
        r as nat == circle_bitrev_spec(idx as nat, bits as nat),
        r < pow2(bits as nat),
{
    let rev = reverse_bits_len(idx, bits);
    circle_adjust_exec(rev, bits, bits)
}

/// Carries a natural row position to its circle-bit-reversed position.
pub fn circle_bitrev_idx_inv(idx: usize, bits: usize) -> (r: usize)
    requires
        bits <= 31,
        (idx as nat) < pow2(bits as nat),
    ensures
        r as nat == circle_bitrev_inv_spec(idx as nat, bits as nat),
        r < pow2(bits as nat),
{
    let x = circle_unadjust_exec(idx, bits, bits);
    reverse_bits_len(x, bits)
}

/// On widths of at most one bit (vectors of length at most two) the circle
/// transform moves nothing.
pub proof fn lemma_circle_bitrev_small_identity(i: nat, bits: nat)
    requires
        bits <= 1,
        i < pow2(bits),
    ensures
        circle_bitrev_spec(i, bits) == i,
{
    lemma2_to64();
    if bits == 0 {
        assert(bitrev_spec(i, 0) == 0);
    } else {
        assert(i < 2);
        assert(bitrev_spec(i, 1) == (i % 2) * pow2(0) + bitrev_spec(i / 2, 0));
        assert(bitrev_spec(i, 1) == i);
        assert(circle_adjust(i, 1) == if (circle_adjust(i, 0) / pow2(0)) % 2 == 1 {
            low_bits_flip(circle_adjust(i, 0), 0)
        } else {
            circle_adjust(i, 0)
        });
        assert(low_bits_flip(i, 0) == i);
    }
}
/// The exact power of two `n` is, when it is one of the supported widths.
pub fn log2_strict(n: usize) -> (r: Option<usize>)
    ensures
        match r {
            Some(k) => k <= 31 && n as nat == pow2(k as nat),
            None => forall|j: nat| j <= 31 ==> n as nat != pow2(j),
        },
{
    let mut m: usize = n;
    let mut k: usize = 0;
    proof {
        lemma2_to64();
    }
    while m > 1 && m % 2 == 0 && k < 31
        invariant
            n as nat == m as nat * pow2(k as nat),
            k <= 31,
        decreases m,
    {
        proof {
            lemma_pow2_unfold((k + 1) as nat);
            assert((m / 2) as nat * (2 * pow2(k as nat)) == m as nat * pow2(k as nat))
                by (nonlinear_arith)
                requires
                    m % 2 == 0,
                    m >= 0,
            ;
        }
        m = m / 2;
        k = k + 1;
    }
    if m == 1 {
        Some(k)
    } else {
        proof {
            lemma_no_supported_pow2(n as nat, m as nat, k as nat);
        }
        None
    }
}

/// After the halving loop stops without reaching one, `n` is no power of two
/// of a supported width: it is zero, keeps an odd factor above one, or
/// exceeds every supported power.
proof fn lemma_no_supported_pow2(n: nat, m: nat, k: nat)
    requires
        n == m * pow2(k),
        m != 1,
        m > 1 ==> (m % 2 == 1 || k == 31),
        k <= 31,
    ensures
        forall|j: nat| j <= 31 ==> n != pow2(j),
{
    assert forall|j: nat| j <= 31 implies n != pow2(j) by {
        lemma_pow2_pos(j);
        lemma_pow2_pos(k);
        if m == 0 {
            assert(n == 0) by (nonlinear_arith)
                requires
                    n == m * pow2(k),
                    m == 0,
            ;
        } else if m % 2 == 1 && n == pow2(j) {
            if j < k {
                lemma_pow2_strictly_increases(j, k);
                assert(m * pow2(k) >= pow2(k)) by (nonlinear_arith)
                    requires
                        m >= 1,
                        pow2(k) > 0,
                ;
            } else {
                lemma_pow2_adds(k, (j - k) as nat);
                assert(m * pow2(k) == pow2(k) * pow2((j - k) as nat));
                assert(m == pow2((j - k) as nat)) by (nonlinear_arith)
                    requires
                        m * pow2(k) == pow2(k) * pow2((j - k) as nat),
                        pow2(k) > 0,
                ;
                if j == k {
                    lemma2_to64();
                    assert(m == 1);
                } else {
                    lemma_pow2_unfold((j - k) as nat);
                    assert(m % 2 == 0) by (nonlinear_arith)
                        requires
                            m == 2 * pow2((j - k - 1) as nat),
                    ;
                }
            }
        } else if m > 1 && m % 2 == 0 {
            assert(k == 31);
            assert(n >= 2 * pow2(31)) by (nonlinear_arith)
                requires
                    n == m * pow2(31nat),
                    m >= 2,
                    pow2(31nat) > 0,
            ;
            lemma_pow2_unfold(32);
            if j < 32 {
                lemma_pow2_strictly_increases(j, 32);
            }
        }
    }
}

/// Applies the circle transform to a vector of residues: entry i of the
/// result is entry circle_bitrev(i) of the input. Lengths that are no
/// supported power of two are refused.
pub fn circle_bitrev_permute(xs: &Vec<u64>) -> (r: Option<Vec<u64>>)
    ensures
        match r {
            Some(v) => v@.len() == xs@.len() && forall|b: nat, i: int|
                b <= 31 && xs@.len() == #[trigger] pow2(b) && 0 <= i < xs@.len() ==> #[trigger] v@[i]
                    == xs@[circle_bitrev_spec(i as nat, b) as int],
            None => forall|j: nat| j <= 31 ==> xs@.len() != pow2(j),
        },
{
    let bits_opt = log2_strict(xs.len());
    match bits_opt {
        None => None,
        Some(bits) => {
            let mut v: Vec<u64> = Vec::new();
            let mut i: usize = 0;
            let n = xs.len();
            while i < n
                invariant
                    n == xs@.len(),
                    bits <= 31,
                    xs@.len() == pow2(bits as nat),
                    i <= n,
                    v@.len() == i,
                    forall|j: int|
                        0 <= j < i ==> #[trigger] v@[j] == xs@[circle_bitrev_spec(
                            j as nat,
                            bits as nat,
                        ) as int],
                decreases n - i,
            {
                let src = circle_bitrev_idx(i, bits);
                v.push(xs[src]);
                i = i + 1;
            }
            proof {
                assert forall|b: nat, i: int|
                    b <= 31 && xs@.len() == #[trigger] pow2(b) && 0 <= i < xs@.len() implies
                    #[trigger] v@[i] == xs@[circle_bitrev_spec(i as nat, b) as int] by {
                    if b != bits as nat {
                        if b < bits as nat {
                            lemma_pow2_strictly_increases(b, bits as nat);
                        } else {
                            lemma_pow2_strictly_increases(bits as nat, b);
                        }
                    }
                }
            }
            Some(v)
        },
    }
}

/// A row-index map that presents a matrix whose rows sit in circle
/// bit-reversed order as if they stood in natural order.
pub struct CircleBitrevPerm {
    pub log_height: usize,
}

impl CircleBitrevPerm {
    pub open spec fn wf(&self) -> bool {
        self.log_height <= 31
    }

    /// Builds the map for a given height, which must be a supported power of two.
    pub fn new(height: usize) -> (r: Option<CircleBitrevPerm>)
        ensures
            match r {
                Some(p) => p.wf() && height as nat == pow2(p.log_height as nat),
                None => forall|j: nat| j <= 31 ==> height as nat != pow2(j),
            },
    {
        match log2_strict(height) {
            Some(k) => Some(CircleBitrevPerm { log_height: k }),
            None => None,
        }
    }

    pub fn height(&self) -> (r: usize)
        requires
            self.wf(),
        ensures
            r as nat == pow2(self.log_height as nat),
    {
        pow2_usize(self.log_height)
    }

    /// The stored row that holds logical row `r`.
    pub fn map_row_index(&self, r: usize) -> (idx: usize)
        requires
            self.wf(),
        ensures
            idx as nat == circle_bitrev_spec(r as nat, self.log_height as nat),
            idx < pow2(self.log_height as nat),
    {
        circle_bitrev_idx(r, self.log_height)
    }
}

/// The arithmetic form of the low-bit complement stays within the machine
/// bounds that its width gives.
proof fn lemma_flip_exec_bounds(y: nat, k: nat, b: nat)
    requires
        k <= b,
        y < pow2(b),
    ensures
        y % pow2(k) <= y,
        y % pow2(k) <= pow2(k) - 1,
        y - (y % pow2(k)) + (pow2(k) - 1 - (y % pow2(k))) == low_bits_flip(y, k),
        low_bits_flip(y, k) < pow2(b),
{
    lemma_pow2_pos(k);
    lemma_low_bits_flip_bound(y, k, b);
    vstd::arithmetic::div_mod::lemma_fundamental_div_mod(y as int, pow2(k) as int);
    assert(y % pow2(k) <= y) by (nonlinear_arith)
        requires
            pow2(k) > 0,
            y == pow2(k) * ((y as int) / (pow2(k) as int)) + (y % pow2(k)),
            (y as int) / (pow2(k) as int) >= 0,
            y % pow2(k) >= 0,
    ;
}

/// A sequence read off in bit-reversed index order.
pub open spec fn bitrev_vals_spec(s: Seq<u64>, bits: nat) -> Seq<u64> {
    Seq::new(s.len(), |i: int| s[bitrev_spec(i as nat, bits) as int])
}

/// Permutes a vector of length 2^bits by bit-reversing each index.
pub fn bitrev_permute_vals(xs: &Vec<u64>, bits: usize) -> (r: Vec<u64>)
    requires
        bits <= 31,
        xs@.len() == pow2(bits as nat),
    ensures
        r@ == bitrev_vals_spec(xs@, bits as nat),
        r@.len() == xs@.len(),
{
    let n = xs.len();
    let mut r: Vec<u64> = Vec::new();
    let mut i: usize = 0;
    while i < n
        invariant
            bits <= 31,
            n == xs@.len(),
            xs@.len() == pow2(bits as nat),
            i <= n,
            r@.len() == i,
            forall|j: int|
                0 <= j < i ==> #[trigger] r@[j] == xs@[bitrev_spec(j as nat, bits as nat) as int],
        decreases n - i,
    {
        let src = reverse_bits_len(i, bits);
        r.push(xs[src]);
        i = i + 1;
    }
    proof {
        assert forall|j: int| 0 <= j < r@.len() implies r@[j] == bitrev_vals_spec(
            xs@,
            bits as nat,
        )[j] by {
            lemma_bitrev_bound(j as nat, bits as nat);
        }
        assert(r@ =~= bitrev_vals_spec(xs@, bits as nat));
    }
    r
}

} // verus!
