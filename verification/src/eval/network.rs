//! The quantized NNUE network: architecture, on-disk format and the forward pass.
use super::features::N_FEATURES;
use crate::sfen::{message, push_decimal, text};
use vstd::prelude::*;

verus! {

/// Per-perspective feature-transformer width.
pub const L0: usize = 128;

/// Hidden layer width after concatenating both perspectives.
pub const L1: usize = 16;

/// Output scale of the quantized net: the feature-transformer scale 127 times the
/// weight scale 64.
pub const OUT_SCALE_Q: i64 = 8128;

/// Size of the file header.
pub const HEADER_SIZE: usize = 32;

/// Size of a whole net file.
pub const NET_BYTES: usize = 32 + 2 * 2344 * 128 + 2 * 128 + 16 * 256 + 4 * 16 + 16 + 4;

/// Quantized network: i16 feature transformer, i8 hidden and output layers.
#[derive(Clone)]
pub struct Network {
    /// `N_FEATURES * L0` weights, feature-major (row `f` holds feature `f`'s weights).
    pub ft_weight: Vec<i16>,
    pub ft_bias: [i16; 128],
    pub l1_weight: [[i8; 256]; 16],
    pub l1_bias: [i32; 16],
    pub l2_weight: [i8; 16],
    pub l2_bias: i32,
}

// ---------------- encoding ----------------

/// Little-endian bytes of a 16-bit word.
pub open spec fn le16u(w: u16) -> Seq<u8> {
    seq![(w & 0xff) as u8, (w >> 8u16) as u8]
}

/// Little-endian bytes of a 32-bit word.
pub open spec fn le32u(w: u32) -> Seq<u8> {
    seq![(w & 0xff) as u8, ((w >> 8u32) & 0xff) as u8, ((w >> 16u32) & 0xff) as u8, (w >> 24u32) as u8]
}

/// Little-endian bytes of each 16-bit weight in turn.
pub open spec fn i16s_le(ws: Seq<i16>) -> Seq<u8>
    decreases ws.len(),
{
    if ws.len() == 0 {
        Seq::empty()
    } else {
        i16s_le(ws.drop_last()) + le16u(ws.last() as u16)
    }
}

/// Little-endian bytes of each 32-bit value in turn.
pub open spec fn i32s_le(ws: Seq<i32>) -> Seq<u8>
    decreases ws.len(),
{
    if ws.len() == 0 {
        Seq::empty()
    } else {
        i32s_le(ws.drop_last()) + le32u(ws.last() as u32)
    }
}

/// The bytes of 8-bit weights.
pub open spec fn i8s(ws: Seq<i8>) -> Seq<u8>
    decreases ws.len(),
{
    if ws.len() == 0 {
        Seq::empty()
    } else {
        i8s(ws.drop_last()).push(ws.last() as u8)
    }
}

/// The bytes of the first `k` hidden-layer weight rows.
pub open spec fn rows_bytes(rows: Seq<[i8; 256]>, k: int) -> Seq<u8>
    decreases k,
{
    if k <= 0 {
        Seq::empty()
    } else {
        rows_bytes(rows, k - 1) + i8s(rows[k - 1]@)
    }
}

/// Decimal digits of `n` as ASCII bytes.
pub open spec fn decimal_bytes(n: nat) -> Seq<u8>
    decreases n,
{
    if n < 10 {
        seq![(n + 48) as u8]
    } else {
        decimal_bytes(n / 10).push(((n % 10) + 48) as u8)
    }
}

/// The architecture text `N=2344,L0=128,L1=16`.
pub open spec fn arch_text() -> Seq<u8> {
    seq![78u8, 61u8] + decimal_bytes(N_FEATURES as nat) + seq![44u8, 76u8, 48u8, 61u8]
        + decimal_bytes(L0 as nat) + seq![44u8, 76u8, 49u8, 61u8] + decimal_bytes(L1 as nat)
}

/// FNV-1a hash of `bs`.
pub open spec fn fnv1a(bs: Seq<u8>) -> u32
    decreases bs.len(),
{
    if bs.len() == 0 {
        2166136261u32
    } else {
        vstd::wrapping::u32_specs::wrapping_mul(fnv1a(bs.drop_last()) ^ (bs.last() as u32), 16777619u32)
    }
}

/// The file header: magic `SNN1`, version 1, zero flags, the architecture hash, the
/// dimensions, and zero padding to 32 bytes.
pub open spec fn header_bytes() -> Seq<u8> {
    seq![83u8, 78u8, 78u8, 49u8] + le16u(1) + le16u(0) + le32u(fnv1a(arch_text())) + le32u(
        N_FEATURES as u32,
    ) + le16u(L0 as u16) + le16u(L1 as u16) + Seq::new(12, |i: int| 0u8)
}

/// The weights and biases, in file order.
pub open spec fn body_bytes(n: Network) -> Seq<u8> {
    i16s_le(n.ft_weight@) + i16s_le(n.ft_bias@) + rows_bytes(n.l1_weight@, 16) + i32s_le(
        n.l1_bias@,
    ) + i8s(n.l2_weight@) + le32u(n.l2_bias as u32)
}

/// The whole file.
pub open spec fn net_bytes(n: Network) -> Seq<u8> {
    header_bytes() + body_bytes(n)
}

/// What `from_bytes` checks of a header: the magic, the version, the architecture hash
/// and the dimensions (the flags and the padding are not read).
pub open spec fn header_ok(b: Seq<u8>) -> bool {
    &&& b.len() >= 32
    &&& b.subrange(0, 4) == seq![83u8, 78u8, 78u8, 49u8]
    &&& b.subrange(4, 6) == le16u(1)
    &&& b.subrange(8, 12) == le32u(fnv1a(arch_text()))
    &&& b.subrange(12, 16) == le32u(N_FEATURES as u32)
    &&& b.subrange(16, 18) == le16u(L0 as u16)
    &&& b.subrange(18, 20) == le16u(L1 as u16)
}

impl Network {
    /// The transformer has one row of `L0` weights per feature.
    pub open spec fn wf(&self) -> bool {
        self.ft_weight@.len() == N_FEATURES * L0
    }

    /// The network with every weight and bias zero.
    pub fn zeroed() -> (r: Network)
        ensures
            r.wf(),
            forall|i: int| 0 <= i < r.ft_weight@.len() ==> #[trigger] r.ft_weight@[i] == 0,
            forall|j: int| 0 <= j < 128 ==> #[trigger] r.ft_bias[j] == 0,
            forall|k: int, i: int| 0 <= k < 16 && 0 <= i < 256 ==> #[trigger] r.l1_weight[k][i] == 0,
            forall|k: int| 0 <= k < 16 ==> #[trigger] r.l1_bias[k] == 0 && r.l2_weight[k] == 0,
            r.l2_bias == 0,
    {
        let ft_weight: Vec<i16> = vec![0i16; N_FEATURES * L0];
        Network {
            ft_weight,
            ft_bias: [0i16;128],
            l1_weight: [[0i8;256];16],
            l1_bias: [0i32;16],
            l2_weight: [0i8;16],
            l2_bias: 0,
        }
    }

    /// The `L0` transformer weights of `feature`.
    pub fn ft_row(&self, feature: usize) -> (r: &[i16])
        requires
            self.wf(),
            feature < N_FEATURES,
        ensures
            r@ == self.ft_weight@.subrange(feature * 128, feature * 128 + 128),
    {
        vstd::slice::slice_subrange(self.ft_weight.as_slice(), feature * L0, (feature + 1) * L0)
    }
}

/// `x` clipped to `0..=127`.
pub open spec fn clip127(x: int) -> int {
    if x < 0 {
        0
    } else if x > 127 {
        127
    } else {
        x
    }
}

/// The clipped inputs: the side-to-move perspective's 128 values, then the other's.
pub open spec fn net_inputs(acc: [[i16; 128]; 2]) -> Seq<int> {
    Seq::new(256, |i: int| if i < 128 { clip127(acc[0][i] as int) } else { clip127(acc[1][i - 128] as int) })
}

/// Hidden unit `k` before clipping, over the first `n` inputs (32-bit arithmetic that
/// wraps).
pub open spec fn hidden_sum(net: Network, x0: Seq<int>, k: int, n: int) -> i32
    decreases n,
{
    if n <= 0 {
        net.l1_bias[k]
    } else {
        vstd::wrapping::i32_specs::wrapping_add(
            hidden_sum(net, x0, k, n - 1),
            (x0[n - 1] * net.l1_weight[k][n - 1]) as i32,
        )
    }
}

/// The clipped hidden layer.
pub open spec fn net_hidden(net: Network, x0: Seq<int>) -> Seq<int> {
    Seq::new(16, |k: int| clip127((hidden_sum(net, x0, k, 256) >> 6u32) as int))
}

/// The output before scaling, over the first `n` hidden units (wrapping).
pub open spec fn output_sum(net: Network, x1: Seq<int>, n: int) -> i32
    decreases n,
{
    if n <= 0 {
        net.l2_bias
    } else {
        vstd::wrapping::i32_specs::wrapping_add(
            output_sum(net, x1, n - 1),
            (x1[n - 1] * net.l2_weight[n - 1]) as i32,
        )
    }
}

/// Division rounding toward zero.
pub open spec fn trunc_div(a: int, b: int) -> int {
    if a >= 0 {
        a / b
    } else {
        -((-a) / b)
    }
}

/// The centipawn score the network gives for the accumulator pair.
pub open spec fn spec_forward(net: Network, acc: [[i16; 128]; 2]) -> int {
    let x1 = net_hidden(net, net_inputs(acc));
    trunc_div(output_sum(net, x1, 16) * 100, 8128)
}

fn clip127_i16(x: i16) -> (r: i32)
    ensures
        r == clip127(x as int),
{
    if x < 0 {
        0
    } else if x > 127 {
        127
    } else {
        x as i32
    }
}

fn push_le16(out: &mut Vec<u8>, w: u16)
    ensures
        final(out)@ == old(out)@ + le16u(w),
{
    out.push((w & 0xff) as u8);
    out.push((w >> 8u16) as u8);
    proof {
        assert(final(out)@ =~= old(out)@ + le16u(w));
    }
}

fn push_le32(out: &mut Vec<u8>, w: u32)
    ensures
        final(out)@ == old(out)@ + le32u(w),
{
    out.push((w & 0xff) as u8);
    out.push(((w >> 8u32) & 0xff) as u8);
    out.push(((w >> 16u32) & 0xff) as u8);
    out.push((w >> 24u32) as u8);
    proof {
        assert(final(out)@ =~= old(out)@ + le32u(w));
    }
}

fn push_decimal_bytes(out: &mut Vec<u8>, n: u64)
    ensures
        final(out)@ == old(out)@ + decimal_bytes(n as nat),
    decreases n,
{
    if n >= 10 {
        push_decimal_bytes(out, n / 10);
    }
    out.push((n % 10) as u8 + 48);
    proof {
        assert(final(out)@ =~= old(out)@ + decimal_bytes(n as nat));
    }
}

/// Hash of the architecture constants, so that a net built for another feature or
/// layer layout is refused at load time.
fn arch_hash() -> (r: u32)
    ensures
        r == fnv1a(arch_text()),
{
    let mut t: Vec<u8> = Vec::new();
    t.push(78);
    t.push(61);
    push_decimal_bytes(&mut t, N_FEATURES as u64);
    t.push(44);
    t.push(76);
    t.push(48);
    t.push(61);
    push_decimal_bytes(&mut t, L0 as u64);
    t.push(44);
    t.push(76);
    t.push(49);
    t.push(61);
    push_decimal_bytes(&mut t, L1 as u64);
    proof {
        assert(t@ =~= arch_text());
    }
    let mut h: u32 = 2166136261;
    let mut i: usize = 0;
    while i < t.len()
        invariant
            i <= t.len(),
            h == fnv1a(t@.take(i as int)),
        decreases t.len() - i,
    {
        proof {
            assert(t@.take(i + 1).drop_last() =~= t@.take(i as int));
        }
        h = (h ^ t[i] as u32).wrapping_mul(16777619);
        i = i + 1;
    }
    proof {
        assert(t@.take(t.len() as int) =~= t@);
    }
    h
}

/// Little-endian bytes of a 16-bit word, and casts between bytes, 16-bit words and
/// their signed forms.
proof fn lemma_narrow_facts(b0: u8, b1: u8, a: u16, b: u16, x: i16, y: i16, p: i8, q: i8)
    by (bit_vector)
    ensures
        a == ((b0 as u16) | ((b1 as u16) << 8u16)) as u16 ==> (a & 0xff) as u8 == b0 && (a >> 8u16) as u8
            == b1,
        (a & 0xff) as u8 == (b & 0xff) as u8 && (a >> 8u16) as u8 == (b >> 8u16) as u8 ==> a == b,
        ((a as i16) as u16) == a,
        ((b0 as i8) as u8) == b0,
        (x as u16) == (y as u16) ==> x == y,
        (p as u8) == (q as u8) ==> p == q,
{
}

/// Little-endian bytes of a 32-bit word, and casts between 32-bit words and their
/// signed form.
proof fn lemma_wide_facts(b0: u8, b1: u8, b2: u8, b3: u8, a: u32, b: u32, x: i32, y: i32)
    by (bit_vector)
    ensures
        a == ((b0 as u32) | ((b1 as u32) << 8u32) | ((b2 as u32) << 16u32) | ((b3 as u32) << 24u32)) as u32
            ==> (a & 0xff) as u8 == b0 && ((a >> 8u32) & 0xff) as u8 == b1 && ((a >> 16u32) & 0xff) as u8 == b2
            && (a >> 24u32) as u8 == b3,
        (a & 0xff) as u8 == (b & 0xff) as u8 && ((a >> 8u32) & 0xff) as u8 == ((b >> 8u32) & 0xff) as u8
            && ((a >> 16u32) & 0xff) as u8 == ((b >> 16u32) & 0xff) as u8 && (a >> 24u32) as u8 == (b >> 24u32)
            as u8 ==> a == b,
        ((a as i32) as u32) == a,
        (x as u32) == (y as u32) ==> x == y,
{
}

proof fn lemma_le16_read(b0: u8, b1: u8)
    ensures
        le16u(((b0 as u16) | ((b1 as u16) << 8u16)) as u16) == seq![b0, b1],
        (((((b0 as u16) | ((b1 as u16) << 8u16)) as u16) as i16) as u16) == (((b0 as u16) | ((b1 as u16) << 8u16)) as u16),
{
    let w = ((b0 as u16) | ((b1 as u16) << 8u16)) as u16;
    lemma_narrow_facts(b0, b1, w, w, 0, 0, 0, 0);
    assert(le16u(w) =~= seq![b0, b1]);
}

proof fn lemma_le32_read(b0: u8, b1: u8, b2: u8, b3: u8)
    ensures
        le32u(((b0 as u32) | ((b1 as u32) << 8u32) | ((b2 as u32) << 16u32) | ((b3 as u32) << 24u32)) as u32)
            == seq![b0, b1, b2, b3],
{
    let w = ((b0 as u32) | ((b1 as u32) << 8u32) | ((b2 as u32) << 16u32) | ((b3 as u32) << 24u32)) as u32;
    lemma_wide_facts(b0, b1, b2, b3, w, w, 0, 0);
    assert(le32u(w) =~= seq![b0, b1, b2, b3]);
}

/// Two words with the same little-endian bytes are equal.
proof fn lemma_le16_injective(a: u16, b: u16)
    ensures
        le16u(a) == le16u(b) ==> a == b,
{
    if le16u(a) == le16u(b) {
        assert(le16u(a)[0] == le16u(b)[0] && le16u(a)[1] == le16u(b)[1]);
        lemma_narrow_facts(0, 0, a, b, 0, 0, 0, 0);
    }
}

proof fn lemma_le32_injective(a: u32, b: u32)
    ensures
        le32u(a) == le32u(b) ==> a == b,
{
    if le32u(a) == le32u(b) {
        assert(le32u(a)[0] == le32u(b)[0] && le32u(a)[1] == le32u(b)[1] && le32u(a)[2] == le32u(b)[2]
            && le32u(a)[3] == le32u(b)[3]);
        lemma_wide_facts(0, 0, 0, 0, a, b, 0, 0);
    }
}

fn read_u16(b: &[u8], o: usize) -> (r: u16)
    requires
        o + 2 <= b@.len(),
    ensures
        le16u(r) == b@.subrange(o as int, o + 2),
{
    let r = ((b[o] as u16) | ((b[o + 1] as u16) << 8u16)) as u16;
    proof {
        lemma_le16_read(b@[o as int], b@[o + 1]);
        assert(b@.subrange(o as int, o + 2) =~= seq![b@[o as int], b@[o + 1]]);
    }
    r
}

fn read_u32(b: &[u8], o: usize) -> (r: u32)
    requires
        o + 4 <= b@.len(),
    ensures
        le32u(r) == b@.subrange(o as int, o + 4),
{
    let r = ((b[o] as u32) | ((b[o + 1] as u32) << 8u32) | ((b[o + 2] as u32) << 16u32) | ((b[o + 3] as u32)
        << 24u32)) as u32;
    proof {
        lemma_le32_read(b@[o as int], b@[o + 1], b@[o + 2], b@[o + 3]);
        assert(b@.subrange(o as int, o + 4) =~= seq![b@[o as int], b@[o + 1], b@[o + 2], b@[o + 3]]);
    }
    r
}

impl Network {
    /// Forward pass from a pair of feature-transformer accumulators (`acc[0]` the side
    /// to move's perspective, `acc[1]` the other's) to a centipawn score from the side
    /// to move's point of view.
    pub fn forward(&self, acc: &[[i16; 128]; 2]) -> (r: i32)
        ensures
            r == spec_forward(*self, *acc),
    {
        let ghost x0s = net_inputs(*acc);
        let mut x0: [i32; 256] = [0i32;256];
        let mut i: usize = 0;
        while i < 256
            invariant
                i <= 256,
                x0s == net_inputs(*acc),
                forall|t: int| 0 <= t < i ==> #[trigger] x0[t] == x0s[t],
            decreases 256 - i,
        {
            x0[i] = if i < 128 {
                clip127_i16(acc[0][i])
            } else {
                clip127_i16(acc[1][i - 128])
            };
            i = i + 1;
        }
        let ghost x1s = net_hidden(*self, x0s);
        let mut x1: [i32; 16] = [0i32;16];
        let mut k: usize = 0;
        while k < 16
            invariant
                k <= 16,
                x0s == net_inputs(*acc),
                x1s == net_hidden(*self, x0s),
                forall|t: int| 0 <= t < 256 ==> #[trigger] x0[t] == x0s[t],
                forall|t: int| 0 <= t < k ==> #[trigger] x1[t] == x1s[t],
            decreases 16 - k,
        {
            let mut y: i32 = self.l1_bias[k];
            let mut j: usize = 0;
            while j < 256
                invariant
                    k < 16,
                    j <= 256,
                    x0s == net_inputs(*acc),
                    forall|t: int| 0 <= t < 256 ==> #[trigger] x0[t] == x0s[t],
                    y == hidden_sum(*self, x0s, k as int, j as int),
                decreases 256 - j,
            {
                let xv = x0[j];
                proof {
                    assert(0 <= xv <= 127);
                }
                let w = self.l1_weight[k][j] as i32;
                proof {
                    assert(-16384 <= xv * w <= 16384) by (nonlinear_arith)
                        requires
                            0 <= xv <= 127,
                            -128 <= w <= 127,
                    ;
                }
                y = y.wrapping_add(xv * w);
                j = j + 1;
            }
            let h = y >> 6u32;
            x1[k] = if h < 0 {
                0
            } else if h > 127 {
                127
            } else {
                h
            };
            k = k + 1;
        }
        let mut y2: i32 = self.l2_bias;
        let mut m: usize = 0;
        while m < 16
            invariant
                m <= 16,
                x1s == net_hidden(*self, net_inputs(*acc)),
                forall|t: int| 0 <= t < 16 ==> #[trigger] x1[t] == x1s[t],
                y2 == output_sum(*self, x1s, m as int),
            decreases 16 - m,
        {
            let xv = x1[m];
            proof {
                assert(0 <= xv <= 127);
            }
            let w = self.l2_weight[m] as i32;
            proof {
                assert(-16384 <= xv * w <= 16384) by (nonlinear_arith)
                    requires
                        0 <= xv <= 127,
                        -128 <= w <= 127,
                ;
            }
            y2 = y2.wrapping_add(xv * w);
            m = m + 1;
        }
        let v: i64 = y2 as i64 * 100;
        let q: i64 = if v >= 0 {
            v / OUT_SCALE_Q
        } else {
            -((-v) / OUT_SCALE_Q)
        };
        q as i32
    }

    /// The net file: header, then the weights and biases, little-endian.
    pub fn to_bytes(&self) -> (r: Vec<u8>)
        requires
            self.wf(),
        ensures
            r@ == net_bytes(*self),
    {
        let mut out: Vec<u8> = Vec::new();
        out.push(83);
        out.push(78);
        out.push(78);
        out.push(49);
        push_le16(&mut out, 1);
        push_le16(&mut out, 0);
        push_le32(&mut out, arch_hash());
        push_le32(&mut out, N_FEATURES as u32);
        push_le16(&mut out, L0 as u16);
        push_le16(&mut out, L1 as u16);
        while out.len() < 32
            invariant
                20 <= out@.len() <= 32,
                out@.subrange(0, 20) == header_bytes().subrange(0, 20),
                forall|t: int| 20 <= t < out@.len() ==> #[trigger] out@[t] == 0,
            decreases 32 - out.len(),
        {
            out.push(0);
        }
        proof {
            let hb = header_bytes();
            assert(hb.len() == 32);
            assert forall|t: int| 0 <= t < 32 implies #[trigger] out@[t] == hb[t] by {
                if t < 20 {
                    assert(out@.subrange(0, 20)[t] == out@[t]);
                    assert(hb.subrange(0, 20)[t] == hb[t]);
                }
            }
            assert(out@ =~= header_bytes());
        }
        let ghost head = out@;
        let mut i: usize = 0;
        while i < self.ft_weight.len()
            invariant
                i <= self.ft_weight@.len(),
                out@ == head + i16s_le(self.ft_weight@.take(i as int)),
            decreases self.ft_weight@.len() - i,
        {
            push_le16(&mut out, self.ft_weight[i] as u16);
            proof {
                assert(self.ft_weight@.take(i + 1).drop_last() =~= self.ft_weight@.take(i as int));
            }
            i = i + 1;
        }
        proof {
            assert(self.ft_weight@.take(self.ft_weight@.len() as int) =~= self.ft_weight@);
        }
        let ghost p1 = out@;
        let mut j: usize = 0;
        while j < 128
            invariant
                j <= 128,
                out@ == p1 + i16s_le(self.ft_bias@.take(j as int)),
            decreases 128 - j,
        {
            push_le16(&mut out, self.ft_bias[j] as u16);
            proof {
                assert(self.ft_bias@.take(j + 1).drop_last() =~= self.ft_bias@.take(j as int));
            }
            j = j + 1;
        }
        proof {
            assert(self.ft_bias@.take(128) =~= self.ft_bias@);
        }
        let ghost p2 = out@;
        let mut k: usize = 0;
        while k < 16
            invariant
                k <= 16,
                out@ == p2 + rows_bytes(self.l1_weight@, k as int),
            decreases 16 - k,
        {
            let ghost p3 = out@;
            let row = self.l1_weight[k];
            let mut t: usize = 0;
            while t < 256
                invariant
                    t <= 256,
                    out@ == p3 + i8s(row@.take(t as int)),
                decreases 256 - t,
            {
                out.push(row[t] as u8);
                proof {
                    assert(row@.take(t + 1).drop_last() =~= row@.take(t as int));
                    assert(out@ =~= p3 + i8s(row@.take(t + 1)));
                }
                t = t + 1;
            }
            proof {
                assert(row@.take(256) =~= row@);
                assert(out@ =~= p2 + rows_bytes(self.l1_weight@, k + 1));
            }
            k = k + 1;
        }
        let ghost p4 = out@;
        let mut b: usize = 0;
        while b < 16
            invariant
                b <= 16,
                out@ == p4 + i32s_le(self.l1_bias@.take(b as int)),
            decreases 16 - b,
        {
            push_le32(&mut out, self.l1_bias[b] as u32);
            proof {
                assert(self.l1_bias@.take(b + 1).drop_last() =~= self.l1_bias@.take(b as int));
            }
            b = b + 1;
        }
        proof {
            assert(self.l1_bias@.take(16) =~= self.l1_bias@);
        }
        let ghost p5 = out@;
        let mut c: usize = 0;
        while c < 16
            invariant
                c <= 16,
                out@ == p5 + i8s(self.l2_weight@.take(c as int)),
            decreases 16 - c,
        {
            out.push(self.l2_weight[c] as u8);
            proof {
                assert(self.l2_weight@.take(c + 1).drop_last() =~= self.l2_weight@.take(c as int));
                assert(out@ =~= p5 + i8s(self.l2_weight@.take(c + 1)));
            }
            c = c + 1;
        }
        proof {
            assert(self.l2_weight@.take(16) =~= self.l2_weight@);
        }
        push_le32(&mut out, self.l2_bias as u32);
        proof {
            assert(out@ =~= net_bytes(*self));
        }
        out
    }
}

proof fn lemma_i16_cast(w: u16)
    ensures
        ((w as i16) as u16) == w,
{
    lemma_narrow_facts(0, 0, w, w, 0, 0, 0, 0);
}

proof fn lemma_i8_cast(b: u8)
    ensures
        ((b as i8) as u8) == b,
{
    lemma_narrow_facts(b, 0, 0, 0, 0, 0, 0, 0);
}

impl Network {
    /// Reads a net file. A header that fails a check (magic, version, architecture
    /// hash, dimensions), or a file too short for the weights, gives an error; otherwise
    /// the body is read in file order.
    pub fn from_bytes(bytes: &[u8]) -> (r: Result<Network, String>)
        ensures
            r is Ok <==> header_ok(bytes@) && bytes@.len() >= NET_BYTES,
            r matches Ok(n) ==> n.wf() && body_bytes(n) == bytes@.subrange(32, NET_BYTES as int),
    {
        if bytes.len() < 32 {
            return Err(text("net file too short for header"));
        }
        if !(bytes[0] == 83 && bytes[1] == 78 && bytes[2] == 78 && bytes[3] == 49) {
            proof {
                if bytes@.subrange(0, 4) == seq![83u8, 78u8, 78u8, 49u8] {
                    assert(bytes@.subrange(0, 4)[0] == bytes@[0]);
                    assert(bytes@.subrange(0, 4)[1] == bytes@[1]);
                    assert(bytes@.subrange(0, 4)[2] == bytes@[2]);
                    assert(bytes@.subrange(0, 4)[3] == bytes@[3]);
                }
            }
            return Err(text("bad magic (not a SNN1 net file)"));
        }
        proof {
            assert(bytes@.subrange(0, 4) =~= seq![83u8, 78u8, 78u8, 49u8]);
        }
        let version = read_u16(bytes, 4);
        proof {
            lemma_le16_injective(version, 1);
        }
        if version != 1 {
            return Err(message("unsupported net version ", version as u64, ""));
        }
        let hash = read_u32(bytes, 8);
        let want = arch_hash();
        proof {
            lemma_le32_injective(hash, want);
        }
        if hash != want {
            return Err(
                text(
                    "architecture hash mismatch: this net was built for a different feature/layer layout",
                ),
            );
        }
        let nf = read_u32(bytes, 12);
        let l0 = read_u16(bytes, 16);
        let l1 = read_u16(bytes, 18);
        proof {
            lemma_le32_injective(nf, N_FEATURES as u32);
            lemma_le16_injective(l0, L0 as u16);
            lemma_le16_injective(l1, L1 as u16);
        }
        if nf != N_FEATURES as u32 || l0 != L0 as u16 || l1 != L1 as u16 {
            let mut m = text("dimension mismatch: file has N=");
            push_decimal(&mut m, nf as u64);
            m.append(" L0=");
            push_decimal(&mut m, l0 as u64);
            m.append(" L1=");
            push_decimal(&mut m, l1 as u64);
            m.append(", code expects N=2344 L0=128 L1=16");
            return Err(m);
        }
        assert(header_ok(bytes@));
        if bytes.len() < NET_BYTES {
            return Err(text("net file too short for its weights"));
        }
        let mut net = Network::zeroed();
        let mut off: usize = 32;
        let mut i: usize = 0;
        while i < N_FEATURES * L0
            invariant
                bytes@.len() >= NET_BYTES,
                net.wf(),
                i <= N_FEATURES * L0,
                off == 32 + 2 * i,
                i16s_le(net.ft_weight@.take(i as int)) == bytes@.subrange(32, off as int),
            decreases N_FEATURES * L0 - i,
        {
            let w = read_u16(bytes, off);
            proof {
                lemma_i16_cast(w);
            }
            let ghost old_w = net.ft_weight@;
            net.ft_weight.set(i, w as i16);
            proof {
                assert(net.ft_weight@.take(i as int) =~= old_w.take(i as int));
                assert(net.ft_weight@.take(i + 1).drop_last() =~= net.ft_weight@.take(i as int));
                assert(net.ft_weight@.take(i + 1).last() == w as i16);
                assert(i16s_le(net.ft_weight@.take(i + 1)) == i16s_le(net.ft_weight@.take(i as int))
                    + le16u(w));
                assert(bytes@.subrange(32, off + 2) =~= bytes@.subrange(32, off as int) + bytes@.subrange(
                    off as int,
                    off + 2,
                ));
            }
            off = off + 2;
            i = i + 1;
        }
        proof {
            assert(net.ft_weight@.take(net.ft_weight@.len() as int) =~= net.ft_weight@);
        }
        let mut j: usize = 0;
        while j < 128
            invariant
                bytes@.len() >= NET_BYTES,
                net.wf(),
                i16s_le(net.ft_weight@) == bytes@.subrange(32, 600096),
                j <= 128,
                off == 600096 + 2 * j,
                i16s_le(net.ft_bias@.take(j as int)) == bytes@.subrange(600096, off as int),
            decreases 128 - j,
        {
            let w = read_u16(bytes, off);
            proof {
                lemma_i16_cast(w);
            }
            let ghost old_b = net.ft_bias@;
            net.ft_bias[j] = w as i16;
            proof {
                assert(net.ft_bias@.take(j as int) =~= old_b.take(j as int));
                assert(net.ft_bias@.take(j + 1).drop_last() =~= net.ft_bias@.take(j as int));
                assert(net.ft_bias@.take(j + 1).last() == w as i16);
                assert(i16s_le(net.ft_bias@.take(j + 1)) == i16s_le(net.ft_bias@.take(j as int))
                    + le16u(w));
                assert(bytes@.subrange(600096, off + 2) =~= bytes@.subrange(600096, off as int)
                    + bytes@.subrange(off as int, off + 2));
            }
            off = off + 2;
            j = j + 1;
        }
        proof {
            assert(net.ft_bias@.take(128) =~= net.ft_bias@);
        }
        let mut k: usize = 0;
        while k < 16
            invariant
                bytes@.len() >= NET_BYTES,
                net.wf(),
                i16s_le(net.ft_weight@) == bytes@.subrange(32, 600096),
                i16s_le(net.ft_bias@) == bytes@.subrange(600096, 600352),
                k <= 16,
                off == 600352 + 256 * k,
                rows_bytes(net.l1_weight@, k as int) == bytes@.subrange(600352, off as int),
            decreases 16 - k,
        {
            let mut row = net.l1_weight[k];
            let ghost start = off;
            let mut t: usize = 0;
            while t < 256
                invariant
                    bytes@.len() >= NET_BYTES,
                    k < 16,
                    t <= 256,
                    start == 600352 + 256 * k,
                    off == start + t,
                    i8s(row@.take(t as int)) == bytes@.subrange(start as int, off as int),
                decreases 256 - t,
            {
                let b = bytes[off];
                proof {
                    lemma_i8_cast(b);
                }
                let ghost old_r = row@;
                row[t] = b as i8;
                proof {
                    assert(row@.take(t as int) =~= old_r.take(t as int));
                    assert(row@.take(t + 1).drop_last() =~= row@.take(t as int));
                    assert(row@.take(t + 1).last() == b as i8);
                    assert(i8s(row@.take(t + 1)) == i8s(row@.take(t as int)).push(b));
                    assert(bytes@.subrange(start as int, off + 1) =~= bytes@.subrange(start as int, off as int).push(
                        b,
                    ));
                }
                off = off + 1;
                t = t + 1;
            }
            proof {
                assert(row@.take(256) =~= row@);
            }
            let ghost before = net.l1_weight@;
            net.l1_weight[k] = row;
            proof {
                assert(net.l1_weight@.take(k as int) =~= before.take(k as int));
                lemma_rows_bytes_prefix(net.l1_weight@, before, k as int);
                assert(bytes@.subrange(600352, off as int) =~= bytes@.subrange(600352, start as int)
                    + bytes@.subrange(start as int, off as int));
            }
            k = k + 1;
        }
        let mut b: usize = 0;
        while b < 16
            invariant
                bytes@.len() >= NET_BYTES,
                net.wf(),
                i16s_le(net.ft_weight@) == bytes@.subrange(32, 600096),
                i16s_le(net.ft_bias@) == bytes@.subrange(600096, 600352),
                rows_bytes(net.l1_weight@, 16) == bytes@.subrange(600352, 604448),
                b <= 16,
                off == 604448 + 4 * b,
                i32s_le(net.l1_bias@.take(b as int)) == bytes@.subrange(604448, off as int),
            decreases 16 - b,
        {
            let w = read_u32(bytes, off);
            let ghost old_l = net.l1_bias@;
            net.l1_bias[b] = w as i32;
            proof {
                assert(net.l1_bias@.take(b as int) =~= old_l.take(b as int));
                lemma_wide_facts(0, 0, 0, 0, w, w, 0, 0);
                assert(net.l1_bias@.take(b + 1).drop_last() =~= net.l1_bias@.take(b as int));
                assert(net.l1_bias@.take(b + 1).last() == w as i32);
                assert(i32s_le(net.l1_bias@.take(b + 1)) == i32s_le(net.l1_bias@.take(b as int))
                    + le32u(w));
                assert(bytes@.subrange(604448, off + 4) =~= bytes@.subrange(604448, off as int)
                    + bytes@.subrange(off as int, off + 4));
            }
            off = off + 4;
            b = b + 1;
        }
        proof {
            assert(net.l1_bias@.take(16) =~= net.l1_bias@);
        }
        let mut c: usize = 0;
        while c < 16
            invariant
                bytes@.len() >= NET_BYTES,
                net.wf(),
                i16s_le(net.ft_weight@) == bytes@.subrange(32, 600096),
                i16s_le(net.ft_bias@) == bytes@.subrange(600096, 600352),
                rows_bytes(net.l1_weight@, 16) == bytes@.subrange(600352, 604448),
                i32s_le(net.l1_bias@) == bytes@.subrange(604448, 604512),
                c <= 16,
                off == 604512 + c,
                i8s(net.l2_weight@.take(c as int)) == bytes@.subrange(604512, off as int),
            decreases 16 - c,
        {
            let v = bytes[off];
            proof {
                lemma_i8_cast(v);
            }
            let ghost old_2 = net.l2_weight@;
            net.l2_weight[c] = v as i8;
            proof {
                assert(net.l2_weight@.take(c as int) =~= old_2.take(c as int));
                assert(net.l2_weight@.take(c + 1).drop_last() =~= net.l2_weight@.take(c as int));
                assert(net.l2_weight@.take(c + 1).last() == v as i8);
                assert(i8s(net.l2_weight@.take(c + 1)) == i8s(net.l2_weight@.take(c as int)).push(v));
                assert(bytes@.subrange(604512, off + 1) =~= bytes@.subrange(604512, off as int).push(v));
            }
            off = off + 1;
            c = c + 1;
        }
        proof {
            assert(net.l2_weight@.take(16) =~= net.l2_weight@);
        }
        let w = read_u32(bytes, off);
        net.l2_bias = w as i32;
        proof {
            lemma_wide_facts(0, 0, 0, 0, w, w, 0, 0);
            assert(body_bytes(net) =~= bytes@.subrange(32, NET_BYTES as int));
        }
        Ok(net)
    }
}

/// Replacing the rows from `k` on leaves the bytes of the first `k` rows unchanged.
proof fn lemma_rows_bytes_prefix(a: Seq<[i8; 256]>, b: Seq<[i8; 256]>, k: int)
    requires
        0 <= k,
        k <= a.len(),
        k <= b.len(),
        forall|r: int| 0 <= r < k ==> a[r] == b[r],
    ensures
        rows_bytes(a, k) == rows_bytes(b, k),
    decreases k,
{
    if k > 0 {
        lemma_rows_bytes_prefix(a, b, k - 1);
    }
}

proof fn lemma_i16s_len(ws: Seq<i16>)
    ensures
        i16s_le(ws).len() == 2 * ws.len(),
    decreases ws.len(),
{
    if ws.len() > 0 {
        lemma_i16s_len(ws.drop_last());
    }
}

proof fn lemma_i32s_len(ws: Seq<i32>)
    ensures
        i32s_le(ws).len() == 4 * ws.len(),
    decreases ws.len(),
{
    if ws.len() > 0 {
        lemma_i32s_len(ws.drop_last());
    }
}

proof fn lemma_i8s_len(ws: Seq<i8>)
    ensures
        i8s(ws).len() == ws.len(),
    decreases ws.len(),
{
    if ws.len() > 0 {
        lemma_i8s_len(ws.drop_last());
    }
}

proof fn lemma_rows_len(rows: Seq<[i8; 256]>, k: int)
    requires
        0 <= k <= rows.len(),
    ensures
        rows_bytes(rows, k).len() == 256 * k,
    decreases k,
{
    if k > 0 {
        lemma_rows_len(rows, k - 1);
        lemma_i8s_len(rows[k - 1]@);
    }
}

/// Equal concatenations with equally long first parts have equal parts.
proof fn lemma_split_eq(a1: Seq<u8>, a2: Seq<u8>, b1: Seq<u8>, b2: Seq<u8>)
    requires
        a1 + a2 == b1 + b2,
        a1.len() == b1.len(),
    ensures
        a1 == b1,
        a2 == b2,
{
    assert(a1 =~= (a1 + a2).subrange(0, a1.len() as int));
    assert(b1 =~= (b1 + b2).subrange(0, b1.len() as int));
    assert(a2 =~= (a1 + a2).subrange(a1.len() as int, (a1 + a2).len() as int));
    assert(b2 =~= (b1 + b2).subrange(b1.len() as int, (b1 + b2).len() as int));
}

proof fn lemma_i16s_injective(a: Seq<i16>, b: Seq<i16>)
    requires
        a.len() == b.len(),
        i16s_le(a) == i16s_le(b),
    ensures
        a == b,
    decreases a.len(),
{
    if a.len() > 0 {
        lemma_i16s_len(a.drop_last());
        lemma_i16s_len(b.drop_last());
        lemma_split_eq(i16s_le(a.drop_last()), le16u(a.last() as u16), i16s_le(b.drop_last()), le16u(b.last() as u16));
        lemma_i16s_injective(a.drop_last(), b.drop_last());
        lemma_le16_injective(a.last() as u16, b.last() as u16);
        let (x, y) = (a.last(), b.last());
        lemma_narrow_facts(0, 0, 0, 0, x, y, 0, 0);
        assert(a =~= a.drop_last().push(x));
        assert(b =~= b.drop_last().push(y));
    } else {
        assert(a =~= b);
    }
}

proof fn lemma_i32s_injective(a: Seq<i32>, b: Seq<i32>)
    requires
        a.len() == b.len(),
        i32s_le(a) == i32s_le(b),
    ensures
        a == b,
    decreases a.len(),
{
    if a.len() > 0 {
        lemma_i32s_len(a.drop_last());
        lemma_i32s_len(b.drop_last());
        lemma_split_eq(i32s_le(a.drop_last()), le32u(a.last() as u32), i32s_le(b.drop_last()), le32u(b.last() as u32));
        lemma_i32s_injective(a.drop_last(), b.drop_last());
        lemma_le32_injective(a.last() as u32, b.last() as u32);
        let (x, y) = (a.last(), b.last());
        lemma_wide_facts(0, 0, 0, 0, 0, 0, x, y);
        assert(a =~= a.drop_last().push(x));
        assert(b =~= b.drop_last().push(y));
    } else {
        assert(a =~= b);
    }
}

proof fn lemma_i8s_injective(a: Seq<i8>, b: Seq<i8>)
    requires
        a.len() == b.len(),
        i8s(a) == i8s(b),
    ensures
        a == b,
    decreases a.len(),
{
    if a.len() > 0 {
        lemma_i8s_len(a.drop_last());
        lemma_i8s_len(b.drop_last());
        assert(i8s(a) =~= i8s(a.drop_last()) + seq![a.last() as u8]);
        assert(i8s(b) =~= i8s(b.drop_last()) + seq![b.last() as u8]);
        lemma_split_eq(i8s(a.drop_last()), seq![a.last() as u8], i8s(b.drop_last()), seq![b.last() as u8]);
        lemma_i8s_injective(a.drop_last(), b.drop_last());
        let (x, y) = (a.last(), b.last());
        assert(seq![x as u8][0] == seq![y as u8][0]);
        lemma_narrow_facts(0, 0, 0, 0, 0, 0, x, y);
        assert(a =~= a.drop_last().push(x));
        assert(b =~= b.drop_last().push(y));
    } else {
        assert(a =~= b);
    }
}

proof fn lemma_rows_injective(a: Seq<[i8; 256]>, b: Seq<[i8; 256]>, k: int)
    requires
        0 <= k <= a.len(),
        k <= b.len(),
        rows_bytes(a, k) == rows_bytes(b, k),
    ensures
        forall|r: int| 0 <= r < k ==> (#[trigger] a[r])@ == b[r]@,
    decreases k,
{
    if k > 0 {
        lemma_rows_len(a, k - 1);
        lemma_rows_len(b, k - 1);
        lemma_split_eq(rows_bytes(a, k - 1), i8s(a[k - 1]@), rows_bytes(b, k - 1), i8s(b[k - 1]@));
        lemma_rows_injective(a, b, k - 1);
        lemma_i8s_injective(a[k - 1]@, b[k - 1]@);
    }
}

/// The bytes `to_bytes` writes for a well-formed network have the full length, pass
/// every header check, and carry that network's body, so `from_bytes` accepts them.
pub proof fn lemma_written_net_accepted(a: Network)
    requires
        a.wf(),
    ensures
        net_bytes(a).len() == NET_BYTES,
        header_ok(net_bytes(a)),
        net_bytes(a).subrange(32, NET_BYTES as int) == body_bytes(a),
{
    let hb = header_bytes();
    assert(hb.len() == 32);
    lemma_i16s_len(a.ft_weight@);
    lemma_i16s_len(a.ft_bias@);
    lemma_rows_len(a.l1_weight@, 16);
    lemma_i32s_len(a.l1_bias@);
    lemma_i8s_len(a.l2_weight@);
    assert(net_bytes(a).subrange(32, NET_BYTES as int) =~= body_bytes(a));
    lemma_net_roundtrip(a, a);
}

/// Reading back the bytes that `to_bytes` writes gives the same network: the header
/// passes every check, and a network whose body has those bytes has every weight and
/// bias of the network written.
pub proof fn lemma_net_roundtrip(a: Network, b: Network)
    requires
        a.wf(),
        b.wf(),
        body_bytes(b) == net_bytes(a).subrange(32, NET_BYTES as int),
    ensures
        net_bytes(a).len() == NET_BYTES,
        header_ok(net_bytes(a)),
        b.ft_weight@ == a.ft_weight@,
        b.ft_bias@ == a.ft_bias@,
        forall|k: int| 0 <= k < 16 ==> (#[trigger] b.l1_weight[k])@ == a.l1_weight[k]@,
        b.l1_bias@ == a.l1_bias@,
        b.l2_weight@ == a.l2_weight@,
        b.l2_bias == a.l2_bias,
{
    let hb = header_bytes();
    assert(hb.len() == 32);
    lemma_i16s_len(a.ft_weight@);
    lemma_i16s_len(a.ft_bias@);
    lemma_rows_len(a.l1_weight@, 16);
    lemma_i32s_len(a.l1_bias@);
    lemma_i8s_len(a.l2_weight@);
    lemma_i16s_len(b.ft_weight@);
    lemma_i16s_len(b.ft_bias@);
    lemma_rows_len(b.l1_weight@, 16);
    lemma_i32s_len(b.l1_bias@);
    lemma_i8s_len(b.l2_weight@);
    let nb = net_bytes(a);
    assert(nb.subrange(32, NET_BYTES as int) =~= body_bytes(a));
    assert(nb.subrange(0, 4) =~= seq![83u8, 78u8, 78u8, 49u8]);
    assert(nb.subrange(4, 6) =~= le16u(1));
    assert(nb.subrange(8, 12) =~= le32u(fnv1a(arch_text())));
    assert(nb.subrange(12, 16) =~= le32u(N_FEATURES as u32));
    assert(nb.subrange(16, 18) =~= le16u(L0 as u16));
    assert(nb.subrange(18, 20) =~= le16u(L1 as u16));
    let (wa, wb) = (i16s_le(a.ft_weight@), i16s_le(b.ft_weight@));
    let (ba, bb) = (i16s_le(a.ft_bias@), i16s_le(b.ft_bias@));
    let (ra, rb) = (rows_bytes(a.l1_weight@, 16), rows_bytes(b.l1_weight@, 16));
    let (la, lb) = (i32s_le(a.l1_bias@), i32s_le(b.l1_bias@));
    let (ea, eb) = (i8s(a.l2_weight@), i8s(b.l2_weight@));
    let (za, zb) = (le32u(a.l2_bias as u32), le32u(b.l2_bias as u32));
    assert(body_bytes(a) =~= wa + (ba + (ra + (la + (ea + za)))));
    assert(body_bytes(b) =~= wb + (bb + (rb + (lb + (eb + zb)))));
    lemma_split_eq(wa, ba + (ra + (la + (ea + za))), wb, bb + (rb + (lb + (eb + zb))));
    lemma_split_eq(ba, ra + (la + (ea + za)), bb, rb + (lb + (eb + zb)));
    lemma_split_eq(ra, la + (ea + za), rb, lb + (eb + zb));
    lemma_split_eq(la, ea + za, lb, eb + zb);
    lemma_split_eq(ea, za, eb, zb);
    lemma_i16s_injective(a.ft_weight@, b.ft_weight@);
    lemma_i16s_injective(a.ft_bias@, b.ft_bias@);
    lemma_rows_injective(a.l1_weight@, b.l1_weight@, 16);
    lemma_i32s_injective(a.l1_bias@, b.l1_bias@);
    lemma_i8s_injective(a.l2_weight@, b.l2_weight@);
    lemma_le32_injective(a.l2_bias as u32, b.l2_bias as u32);
    let (x, y) = (a.l2_bias, b.l2_bias);
    lemma_wide_facts(0, 0, 0, 0, 0, 0, x, y);
}

} // verus!
