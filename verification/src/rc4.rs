//! An RC4-style stream cipher: a keyed permutation of the 256 byte values,
//! built once per key by the key-scheduling algorithm and advanced one byte
//! at a time by the pseudo-random generation algorithm. Encryption and
//! decryption are the same operation: XOR the data with the keystream.

use vstd::prelude::*;
use crate::error::CipherError;
use crate::otp::xor_combine;

verus! {

/// `s` holds each of the 256 byte values exactly once.
pub open spec fn is_permutation(s: Seq<u8>) -> bool {
    s.len() == 256 && forall|x: u8| #[trigger] s.contains(x)
}

/// The identity table the key schedule starts from: entry `n` holds `n`.
pub open spec fn identity_perm() -> Seq<u8> {
    Seq::new(256, |k: int| k as u8)
}

/// The (table, j-cursor) pair after the first `n` key-scheduling steps:
/// step `i` adds `S[i]` and the key byte at `i mod key.len()` into `j` and
/// swaps `S[i]` with `S[j]`.
pub open spec fn ksa_state(key: Seq<u8>, n: int) -> (Seq<u8>, u8)
    recommends
        key.len() > 0,
    decreases n,
{
    if n <= 0 {
        (identity_perm(), 0u8)
    } else {
        let prev = ksa_state(key, n - 1);
        let s = prev.0;
        let i = n - 1;
        let j2 = ((prev.1 as int + s[i] as int + key[i % (key.len() as int)] as int) % 256) as u8;
        (s.update(i, s[j2 as int]).update(j2 as int, s[i]), j2)
    }
}

/// The table the key-scheduling algorithm builds from `key`.
pub open spec fn ksa(key: Seq<u8>) -> Seq<u8>
    recommends
        key.len() > 0,
{
    ksa_state(key, 256).0
}

/// One generation step from table `s` and cursors `i`, `j`: the advanced
/// table, the advanced cursors, and the keystream byte it emits.
pub open spec fn prga_step(s: Seq<u8>, i: u8, j: u8) -> (Seq<u8>, u8, u8, u8)
    recommends
        s.len() == 256,
{
    let i2 = ((i as int + 1) % 256) as u8;
    let j2 = ((j as int + s[i2 as int] as int) % 256) as u8;
    let s2 = s.update(i2 as int, s[j2 as int]).update(j2 as int, s[i2 as int]);
    let t = s2[((s2[i2 as int] as int + s2[j2 as int] as int) % 256) as int];
    (s2, i2, j2, t)
}

/// The (table, i, j) state after `n` generation steps.
pub open spec fn prga_state(s: Seq<u8>, i: u8, j: u8, n: int) -> (Seq<u8>, u8, u8)
    decreases n,
{
    if n <= 0 {
        (s, i, j)
    } else {
        let prev = prga_state(s, i, j, n - 1);
        let st = prga_step(prev.0, prev.1, prev.2);
        (st.0, st.1, st.2)
    }
}

/// The `n`-th keystream byte (0-based) generated from state `(s, i, j)`.
pub open spec fn keystream_byte(s: Seq<u8>, i: u8, j: u8, n: int) -> u8 {
    let prev = prga_state(s, i, j, n);
    prga_step(prev.0, prev.1, prev.2).3
}

/// The first `n` keystream bytes generated from state `(s, i, j)`.
pub open spec fn keystream(s: Seq<u8>, i: u8, j: u8, n: nat) -> Seq<u8> {
    Seq::new(n, |k: int| keystream_byte(s, i, j, k))
}

/// `data` XORed byte-wise with the keystream generated from `(s, i, j)`.
pub open spec fn rc4_apply(s: Seq<u8>, i: u8, j: u8, data: Seq<u8>) -> Seq<u8> {
    xor_combine(data, keystream(s, i, j, data.len()))
}

/// The identity table is a permutation.
proof fn lemma_identity_is_permutation()
    ensures
        is_permutation(identity_perm()),
{
    assert forall|x: u8| #[trigger] identity_perm().contains(x) by {
        assert(identity_perm()[x as int] == x);
    }
}

/// Swapping two entries keeps a permutation a permutation.
proof fn lemma_swap_preserves_permutation(s: Seq<u8>, a: int, b: int)
    requires
        is_permutation(s),
        0 <= a < 256,
        0 <= b < 256,
    ensures
        is_permutation(s.update(a, s[b]).update(b, s[a])),
{
    let s2 = s.update(a, s[b]).update(b, s[a]);
    assert forall|x: u8| #[trigger] s2.contains(x) by {
        assert(s.contains(x));
        let k = choose|k: int| 0 <= k < 256 && s[k] == x;
        if k == a {
            assert(s2[b] == x);
        } else if k == b {
            assert(s2[if a == b {
                b
            } else {
                a
            }] == x);
        } else {
            assert(s2[k] == x);
        }
    }
}

/// The owned state of the stream cipher: the 256-entry table and the two
/// cursors. Single-use: built once from a key, consumed byte by byte.
pub struct Rc4 {
    s: Vec<u8>,
    i: u8,
    j: u8,
}

/// The mathematical value of an `Rc4` state.
pub struct Rc4View {
    pub s: Seq<u8>,
    pub i: u8,
    pub j: u8,
}

impl View for Rc4 {
    type V = Rc4View;

    closed spec fn view(&self) -> Rc4View {
        Rc4View { s: self.s@, i: self.i, j: self.j }
    }
}

impl Rc4 {
    /// Well-formed: the table is a permutation of the 256 byte values.
    pub open spec fn wf(self) -> bool {
        is_permutation(self@.s)
    }

    /// Run the key-scheduling algorithm over `key`. An empty key is
    /// rejected; otherwise the state holds the scheduled table with both
    /// cursors at zero.
    pub fn new(key: &[u8]) -> (r: Result<Rc4, CipherError>)
        ensures
            r is Err <==> key@.len() == 0,
            r is Err ==> r->Err_0 == CipherError::InvalidKey,
            r is Ok ==> r->Ok_0@.s == ksa(key@) && r->Ok_0@.i == 0 && r->Ok_0@.j == 0
                && r->Ok_0.wf(),
    {
        if key.len() == 0 {
            return Err(CipherError::InvalidKey);
        }
        let mut s: Vec<u8> = Vec::new();
        let mut n: usize = 0;
        while n < 256
            invariant
                n <= 256,
                s@.len() == n,
                forall|k: int| 0 <= k < n ==> s@[k] == k as u8,
            decreases 256 - n,
        {
            s.push(n as u8);
            n = n + 1;
        }
        assert(s@ =~= identity_perm());
        proof {
            lemma_identity_is_permutation();
        }
        let mut j: u8 = 0;
        let mut n: usize = 0;
        while n < 256
            invariant
                n <= 256,
                key@.len() > 0,
                is_permutation(s@),
                s@ == ksa_state(key@, n as int).0,
                j == ksa_state(key@, n as int).1,
            decreases 256 - n,
        {
            let ghost prev = s@;
            let ki: u8 = key[n % key.len()];
            let jn: usize = (j as usize + s[n] as usize + ki as usize) % 256;
            let sn: u8 = s[n];
            let sj: u8 = s[jn];
            s[n] = sj;
            s[jn] = sn;
            proof {
                lemma_swap_preserves_permutation(prev, n as int, jn as int);
                assert(s@ == prev.update(n as int, prev[jn as int]).update(jn as int, prev[n as int]));
            }
            j = jn as u8;
            n = n + 1;
        }
        Ok(Rc4 { s, i: 0, j: 0 })
    }

    /// Advance the state over `data`, strictly in order, XORing each byte
    /// with the keystream byte generated for its position. The output has
    /// exactly the input's length, and the table stays a permutation.
    pub fn process(&mut self, data: &[u8]) -> (out: Vec<u8>)
        requires
            old(self).wf(),
        ensures
            final(self).wf(),
            out@ == rc4_apply(old(self)@.s, old(self)@.i, old(self)@.j, data@),
            out@.len() == data@.len(),
            final(self)@.s == prga_state(old(self)@.s, old(self)@.i, old(self)@.j,
                data@.len() as int).0,
            final(self)@.i == prga_state(old(self)@.s, old(self)@.i, old(self)@.j,
                data@.len() as int).1,
            final(self)@.j == prga_state(old(self)@.s, old(self)@.i, old(self)@.j,
                data@.len() as int).2,
    {
        let ghost s0 = old(self)@.s;
        let ghost i0 = old(self)@.i;
        let ghost j0 = old(self)@.j;
        let mut out: Vec<u8> = Vec::new();
        let mut k: usize = 0;
        while k < data.len()
            invariant
                k <= data@.len(),
                out@.len() == k,
                is_permutation(self@.s),
                self@.s == prga_state(s0, i0, j0, k as int).0,
                self@.i == prga_state(s0, i0, j0, k as int).1,
                self@.j == prga_state(s0, i0, j0, k as int).2,
                forall|m: int| 0 <= m < k ==> out@[m] == (data@[m] ^ keystream_byte(
                    s0,
                    i0,
                    j0,
                    m,
                )),
            decreases data@.len() - k,
        {
            let ghost prev = self@.s;
            let i2: u8 = ((self.i as usize + 1) % 256) as u8;
            let j2: u8 = ((self.j as usize + self.s[i2 as usize] as usize) % 256) as u8;
            let si: u8 = self.s[i2 as usize];
            let sj: u8 = self.s[j2 as usize];
            self.s[i2 as usize] = sj;
            self.s[j2 as usize] = si;
            let t: u8 = self.s[(self.s[i2 as usize] as usize + self.s[j2 as usize] as usize)
                % 256];
            out.push(data[k] ^ t);
            self.i = i2;
            self.j = j2;
            proof {
                lemma_swap_preserves_permutation(prev, i2 as int, j2 as int);
                assert(self@.s == prev.update(i2 as int, prev[j2 as int]).update(
                    j2 as int,
                    prev[i2 as int],
                ));
                assert(prga_state(s0, i0, j0, k + 1).0 == self@.s);
                assert(t == keystream_byte(s0, i0, j0, k as int));
            }
            k = k + 1;
        }
        assert(out@ =~= rc4_apply(s0, i0, j0, data@));
        out
    }
}

/// The stream cipher is self-inverse: processing the output from the same
/// starting state reproduces the input, because the keystream depends only
/// on the state and the position, never on the data.
pub proof fn lemma_rc4_self_inverse(s: Seq<u8>, i: u8, j: u8, data: Seq<u8>)
    ensures
        rc4_apply(s, i, j, rc4_apply(s, i, j, data)) == data,
{
    let once = rc4_apply(s, i, j, data);
    let ks = keystream(s, i, j, data.len());
    assert forall|m: int| 0 <= m < data.len() implies rc4_apply(s, i, j, once)[m] == data[m] by {
        let x = data[m];
        let y = ks[m];
        assert((x ^ y) ^ y == x) by (bit_vector);
    }
    assert(rc4_apply(s, i, j, once) =~= data);
}


} // verus!
