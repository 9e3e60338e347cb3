//! The Standard security handler's key derivation (revision 3, 128-bit
//! RC4): the RC4 cipher, MD5 through the `md-5` crate, and the owner and
//! user password entries and the file key computed from a password.

use vstd::prelude::*;

verus! {

/// The MD5 digest of `data`.
pub uninterp spec fn md5_digest(data: Seq<u8>) -> Seq<u8>;

/// The MD5 digest of `data`, 16 bytes.
///
/// Trusted: calls `<md5::Md5 as md5::Digest>::digest`, whose output is a
/// 16-byte array.
#[verifier::external_body]
pub fn md5(data: &[u8]) -> (r: Vec<u8>)
    ensures
        r@ == md5_digest(data@),
        r@.len() == 16,
{
    <md5::Md5 as md5::Digest>::digest(data).to_vec()
}

/// `s` with the entries at `a` and `b` exchanged.
pub open spec fn swapped(s: Seq<u8>, a: int, b: int) -> Seq<u8> {
    s.update(a, s[b]).update(b, s[a])
}

/// The RC4 state and index `j` after `n` steps of the key schedule.
pub open spec fn ksa(key: Seq<u8>, n: int) -> (Seq<u8>, int)
    decreases n,
{
    if n <= 0 {
        (Seq::new(256, |k: int| k as u8), 0)
    } else {
        let (s, j) = ksa(key, n - 1);
        let i = n - 1;
        let j2 = (j + s[i] + key[i % (key.len() as int)]) % 256;
        (swapped(s, i, j2), j2)
    }
}

/// The RC4 state, indices and output after `n` bytes of `data`.
pub open spec fn prga(key: Seq<u8>, data: Seq<u8>, n: int) -> (Seq<u8>, int, int, Seq<u8>)
    decreases n,
{
    if n <= 0 {
        (ksa(key, 256).0, 0, 0, Seq::empty())
    } else {
        let (s, i, j, out) = prga(key, data, n - 1);
        let i2 = (i + 1) % 256;
        let j2 = (j + s[i2]) % 256;
        let s2 = swapped(s, i2, j2);
        let k = s2[(s2[i2] + s2[j2]) % 256];
        (s2, i2, j2, out.push(data[n - 1] ^ k))
    }
}

/// `data` enciphered (or deciphered) with RC4 under `key`.
pub open spec fn rc4_spec(key: Seq<u8>, data: Seq<u8>) -> Seq<u8> {
    prga(key, data, data.len() as int).3
}

/// The identity permutation of the bytes, the RC4 state before the key
/// schedule.
fn identity_state() -> (s: Vec<u8>)
    ensures
        s@ == Seq::new(256, |k: int| k as u8),
{
    let mut s: Vec<u8> = Vec::new();
    let mut i: usize = 0;
    while i < 256
        invariant
            i <= 256,
            s@ == Seq::new(i as nat, |k: int| k as u8),
        decreases 256 - i,
    {
        s.push(i as u8);
        i = i + 1;
        assert(s@ =~= Seq::new(i as nat, |k: int| k as u8));
    }
    s
}

/// RC4 under `key` applied to `data`.
pub fn rc4(key: &[u8], data: &[u8]) -> (out: Vec<u8>)
    requires
        key@.len() > 0,
    ensures
        out@ == rc4_spec(key@, data@),
{
    let mut s = identity_state();
    let mut j: usize = 0;
    let mut i: usize = 0;
    while i < 256
        invariant
            i <= 256,
            key@.len() > 0,
            s@.len() == 256,
            (s@, j as int) == ksa(key@, i as int),
            j < 256,
        decreases 256 - i,
    {
        j = (j + s[i] as usize + key[i % key.len()] as usize) % 256;
        let a = s[i];
        let b = s[j];
        s.set(i, b);
        s.set(j, a);
        i = i + 1;
        assert(s@ =~= ksa(key@, i as int).0);
    }
    let mut out: Vec<u8> = Vec::new();
    let mut x: usize = 0;
    let mut y: usize = 0;
    let mut n: usize = 0;
    while n < data.len()
        invariant
            n <= data@.len(),
            s@.len() == 256,
            x < 256,
            y < 256,
            (s@, x as int, y as int, out@) == prga(key@, data@, n as int),
        decreases data@.len() - n,
    {
        x = (x + 1) % 256;
        y = (y + s[x] as usize) % 256;
        let a = s[x];
        let b = s[y];
        s.set(x, b);
        s.set(y, a);
        let t = (s[x] as usize + s[y] as usize) % 256;
        out.push(data[n] ^ s[t]);
        n = n + 1;
        assert(s@ =~= prga(key@, data@, n as int).0);
        assert(out@ =~= prga(key@, data@, n as int).3);
    }
    out
}

/// The 32 bytes with which a password is padded.
pub open spec fn pad_bytes() -> Seq<u8> {
    seq![40u8, 191, 78, 94, 78, 117, 138, 65, 100, 0, 78, 86, 255, 250, 1, 8, 46, 46, 0, 182, 208, 104, 62, 128, 47, 12, 169, 254, 100, 83, 105, 122]
}

/// `pw` cut to 32 bytes, then filled up to 32 with [`pad_bytes`].
pub open spec fn padded(pw: Seq<u8>) -> Seq<u8> {
    let n = if pw.len() < 32 { pw.len() as int } else { 32 };
    pw.take(n) + pad_bytes().take(32 - n)
}

/// Padding keeps the whole password when it has at most 32 bytes, filling
/// up with the first bytes of the pad, and its first 32 bytes otherwise;
/// either way it has 32 bytes.
pub proof fn law_padded_keeps_password(pw: Seq<u8>)
    ensures
        padded(pw).len() == 32,
        pw.len() <= 32 ==> padded(pw) == pw + pad_bytes().take(32 - pw.len()),
        pw.len() > 32 ==> padded(pw) == pw.take(32),
{
    assert(pad_bytes().len() == 32);
    if pw.len() <= 32 {
        assert(pw.take(pw.len() as int) =~= pw);
    } else {
        assert(pad_bytes().take(0) =~= Seq::<u8>::empty());
        assert(padded(pw) =~= pw.take(32));
    }
}

/// `x` passed `n` times through MD5.
pub open spec fn md5_iter(x: Seq<u8>, n: nat) -> Seq<u8>
    decreases n,
{
    if n == 0 {
        x
    } else {
        md5_digest(md5_iter(x, (n - 1) as nat))
    }
}

/// Each byte of `key` exclusive-or `b`.
pub open spec fn xor_key(key: Seq<u8>, b: u8) -> Seq<u8> {
    key.map_values(|k: u8| k ^ b)
}

/// RC4 under `key`, then again under `key` exclusive-or 1, 2, …, `n`.
pub open spec fn rc4_rounds(key: Seq<u8>, data: Seq<u8>, n: nat) -> Seq<u8>
    decreases n,
{
    if n == 0 {
        rc4_spec(key, data)
    } else {
        rc4_spec(xor_key(key, n as u8), rc4_rounds(key, data, (n - 1) as nat))
    }
}

/// The permissions `-4` (every permission but none of the reserved bits
/// cleared), as the 4 little-endian bytes of an unsigned 32-bit number.
pub open spec fn permission_bytes() -> Seq<u8> {
    seq![252u8, 255, 255, 255]
}

/// The owner password entry `/O` for password `pw`, used as both the owner
/// and the user password (revision 3, 128-bit key): RC4 of the padded
/// password, 20 times, under the first 16 bytes of 51 MD5s of it.
pub open spec fn owner_entry(pw: Seq<u8>) -> Seq<u8> {
    rc4_rounds(md5_iter(padded(pw), 51).take(16), padded(pw), 19)
}

/// The file key for password `pw`, owner entry `o` and the first element
/// `id0` of the file identifier: the first 16 bytes of 51 MD5s of the padded
/// password, `o`, the permissions and `id0`.
pub open spec fn file_key(pw: Seq<u8>, o: Seq<u8>, id0: Seq<u8>) -> Seq<u8> {
    md5_iter(padded(pw) + o + permission_bytes() + id0, 51).take(16)
}

/// The user password entry `/U` for file key `key`: RC4, 20 times, of the
/// MD5 of the padding and `id0`, followed by 16 bytes of padding.
pub open spec fn user_entry(key: Seq<u8>, id0: Seq<u8>) -> Seq<u8> {
    rc4_rounds(key, md5_digest(pad_bytes() + id0), 19) + pad_bytes().take(16)
}

/// The padding bytes.
fn pad_vec() -> (v: Vec<u8>)
    ensures
        v@ == pad_bytes(),
{
    let v: Vec<u8> = vec![40u8, 191, 78, 94, 78, 117, 138, 65, 100, 0, 78, 86, 255, 250, 1, 8, 46, 46, 0, 182, 208, 104, 62, 128, 47, 12, 169, 254, 100, 83, 105, 122];
    assert(v@ =~= pad_bytes());
    v
}

/// `pw` cut or padded to 32 bytes.
fn pad_password(pw: &[u8]) -> (v: Vec<u8>)
    ensures
        v@ == padded(pw@),
{
    let pad = pad_vec();
    let n: usize = if pw.len() < 32 { pw.len() } else { 32 };
    let mut v: Vec<u8> = Vec::new();
    let mut i: usize = 0;
    while i < n
        invariant
            n <= pw@.len(),
            n <= 32,
            i <= n,
            v@ == pw@.take(i as int),
        decreases n - i,
    {
        v.push(pw[i]);
        i = i + 1;
        assert(v@ =~= pw@.take(i as int));
    }
    let mut k: usize = 0;
    while k < 32 - n
        invariant
            n <= 32,
            pad@ == pad_bytes(),
            pad@.len() == 32,
            k <= 32 - n,
            v@ == pw@.take(n as int) + pad_bytes().take(k as int),
        decreases 32 - n - k,
    {
        v.push(pad[k]);
        k = k + 1;
        assert(v@ =~= pw@.take(n as int) + pad_bytes().take(k as int));
    }
    v
}

/// `x` passed `n` times through MD5.
fn md5_times(x: Vec<u8>, n: usize) -> (r: Vec<u8>)
    requires
        n >= 1,
    ensures
        r@ == md5_iter(x@, n as nat),
        r@.len() == 16,
{
    let mut r = md5(x.as_slice());
    assert(md5_iter(x@, 0) == x@);
    let mut k: usize = 1;
    while k < n
        invariant
            1 <= k <= n,
            r@ == md5_iter(x@, k as nat),
            r@.len() == 16,
        decreases n - k,
    {
        r = md5(r.as_slice());
        k = k + 1;
    }
    r
}

/// Each byte of `key` exclusive-or `b`.
fn xor_bytes(key: &Vec<u8>, b: u8) -> (r: Vec<u8>)
    ensures
        r@ == xor_key(key@, b),
{
    let mut r: Vec<u8> = Vec::new();
    let mut i: usize = 0;
    while i < key.len()
        invariant
            i <= key@.len(),
            r@ == key@.take(i as int).map_values(|k: u8| k ^ b),
        decreases key@.len() - i,
    {
        r.push(key[i] ^ b);
        i = i + 1;
        assert(r@ =~= key@.take(i as int).map_values(|k: u8| k ^ b));
    }
    assert(key@.take(key@.len() as int) =~= key@);
    r
}

/// RC4 under `key`, then under `key` exclusive-or 1, …, 19.
fn rc4_twenty(key: &Vec<u8>, data: &[u8]) -> (r: Vec<u8>)
    requires
        key@.len() > 0,
    ensures
        r@ == rc4_rounds(key@, data@, 19),
{
    let mut r = rc4(key.as_slice(), data);
    let mut i: u8 = 1;
    while i <= 19
        invariant
            1 <= i <= 20,
            key@.len() > 0,
            r@ == rc4_rounds(key@, data@, (i - 1) as nat),
        decreases 20 - i,
    {
        let k = xor_bytes(key, i);
        r = rc4(k.as_slice(), r.as_slice());
        assert(r@ == rc4_rounds(key@, data@, i as nat));
        i = i + 1;
    }
    r
}

/// The owner password entry for `pw` (see [`owner_entry`]).
pub fn owner_password_entry(pw: &[u8]) -> (o: Vec<u8>)
    ensures
        o@ == owner_entry(pw@),
{
    let p = pad_password(pw);
    let h = md5_times(pad_password(pw), 51);
    assert(h@.take(16) =~= h@);
    rc4_twenty(&h, p.as_slice())
}

/// The file key for `pw`, `o` and `id0` (see [`file_key`]).
pub fn file_key_for(pw: &[u8], o: &[u8], id0: &[u8]) -> (k: Vec<u8>)
    ensures
        k@ == file_key(pw@, o@, id0@),
        k@.len() == 16,
{
    let mut input = pad_password(pw);
    let mut i: usize = 0;
    let ghost start = input@;
    while i < o.len()
        invariant
            i <= o@.len(),
            input@ == start + o@.take(i as int),
        decreases o@.len() - i,
    {
        input.push(o[i]);
        i = i + 1;
        assert(input@ =~= start + o@.take(i as int));
    }
    assert(o@.take(o@.len() as int) =~= o@);
    input.push(252);
    input.push(255);
    input.push(255);
    input.push(255);
    assert(input@ =~= padded(pw@) + o@ + permission_bytes());
    let ghost mid = input@;
    let mut j: usize = 0;
    while j < id0.len()
        invariant
            j <= id0@.len(),
            input@ == mid + id0@.take(j as int),
        decreases id0@.len() - j,
    {
        input.push(id0[j]);
        j = j + 1;
        assert(input@ =~= mid + id0@.take(j as int));
    }
    assert(id0@.take(id0@.len() as int) =~= id0@);
    let k = md5_times(input, 51);
    assert(k@.take(16) =~= k@);
    k
}

/// The user password entry for file key `key` and `id0` (see
/// [`user_entry`]).
pub fn user_password_entry(key: &Vec<u8>, id0: &[u8]) -> (u: Vec<u8>)
    requires
        key@.len() > 0,
    ensures
        u@ == user_entry(key@, id0@),
{
    let mut input = pad_vec();
    let mut j: usize = 0;
    while j < id0.len()
        invariant
            j <= id0@.len(),
            input@ == pad_bytes() + id0@.take(j as int),
        decreases id0@.len() - j,
    {
        input.push(id0[j]);
        j = j + 1;
        assert(input@ =~= pad_bytes() + id0@.take(j as int));
    }
    assert(id0@.take(id0@.len() as int) =~= id0@);
    let h = md5(input.as_slice());
    let mut u = rc4_twenty(key, h.as_slice());
    let pad = pad_vec();
    let ghost first = u@;
    let mut k: usize = 0;
    while k < 16
        invariant
            k <= 16,
            pad@ == pad_bytes(),
            u@ == first + pad_bytes().take(k as int),
        decreases 16 - k,
    {
        u.push(pad[k]);
        k = k + 1;
        assert(u@ =~= first + pad_bytes().take(k as int));
    }
    u
}

} // verus!
