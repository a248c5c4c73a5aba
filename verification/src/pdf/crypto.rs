//! PDF 1.4 standard security handler (revision 3, 128-bit RC4).
use vstd::prelude::*;
use crate::fmt::push_all;

verus! {

/// Abstract state of an RC4 cipher: the two indices and the 256-byte permutation.
pub struct Rc4Model {
    pub i: u8,
    pub j: u8,
    pub s: Seq<u8>,
}

/// The permutation 0, 1, ..., 255.
pub open spec fn identity_perm() -> Seq<u8> {
    Seq::new(256, |k: int| k as u8)
}

/// `s` with the entries at `a` and `b` exchanged.
pub open spec fn swap_at(s: Seq<u8>, a: int, b: int) -> Seq<u8> {
    s.update(a, s[b]).update(b, s[a])
}

/// Permutation and `j` index after the first `n` rounds of the RC4 key schedule.
pub open spec fn ksa_rounds(key: Seq<u8>, n: nat) -> (Seq<u8>, u8)
    decreases n,
{
    if n == 0 {
        (identity_perm(), 0u8)
    } else {
        let (s, j) = ksa_rounds(key, (n - 1) as nat);
        let i = n - 1;
        let j2 = j.wrapping_add(s[i]).wrapping_add(key[i % key.len() as int]);
        (swap_at(s, i, j2 as int), j2)
    }
}

/// The permutation produced by the RC4 key schedule; an empty key leaves the identity.
pub open spec fn key_schedule(key: Seq<u8>) -> Seq<u8> {
    if key.len() == 0 {
        identity_perm()
    } else {
        ksa_rounds(key, 256).0
    }
}

/// A freshly keyed cipher.
pub open spec fn rc4_init(key: Seq<u8>) -> Rc4Model {
    Rc4Model { i: 0, j: 0, s: key_schedule(key) }
}

/// One step of the RC4 output generator.
pub open spec fn prga_step(m: Rc4Model) -> Rc4Model {
    let i = m.i.wrapping_add(1);
    let j = m.j.wrapping_add(m.s[i as int]);
    Rc4Model { i, j, s: swap_at(m.s, i as int, j as int) }
}

/// The keystream byte produced by the step taken from state `m`.
pub open spec fn prga_byte(m: Rc4Model) -> u8 {
    let n = prga_step(m);
    n.s[n.s[n.i as int].wrapping_add(n.s[n.j as int]) as int]
}

/// The cipher state after `n` keystream bytes.
pub open spec fn advance(m: Rc4Model, n: nat) -> Rc4Model
    decreases n,
{
    if n == 0 {
        m
    } else {
        prga_step(advance(m, (n - 1) as nat))
    }
}

/// The first `n` keystream bytes produced from state `m`.
pub open spec fn keystream(m: Rc4Model, n: nat) -> Seq<u8>
    decreases n,
{
    if n == 0 {
        Seq::empty()
    } else {
        keystream(m, (n - 1) as nat).push(prga_byte(advance(m, (n - 1) as nat)))
    }
}

/// Byte-wise exclusive or of `a` with the first `a.len()` bytes of `b`.
pub open spec fn xor_seq(a: Seq<u8>, b: Seq<u8>) -> Seq<u8> {
    Seq::new(a.len(), |k: int| a[k] ^ b[k])
}

/// RC4 encryption (equivalently decryption) of `data` under `key`.
pub open spec fn rc4_crypt(key: Seq<u8>, data: Seq<u8>) -> Seq<u8> {
    xor_seq(data, keystream(rc4_init(key), data.len()))
}

/// The RC4 stream cipher.
pub struct Rc4 {
    i: u8,
    j: u8,
    s: [u8; 256],
}

impl View for Rc4 {
    type V = Rc4Model;

    closed spec fn view(&self) -> Rc4Model {
        Rc4Model { i: self.i, j: self.j, s: self.s@ }
    }
}

impl Rc4 {
    /// The table of a cipher is always a permutation of the 256 byte values.
    #[verifier::type_invariant]
    spec fn table_is_permutation(self) -> bool {
        is_byte_permutation(self.s@)
    }

    /// Runs the key schedule for `key`.
    pub fn new(key: &[u8]) -> (r: Self)
        ensures
            r@ == rc4_init(key@),
            r@.s.len() == 256,
            is_byte_permutation(r@.s),
    {
        let mut s: [u8; 256] = [0u8; 256];
        let mut k: usize = 0;
        while k < 256
            invariant
                k <= 256,
                s@.len() == 256,
                forall|t: int| 0 <= t < k ==> s@[t] == t as u8,
            decreases 256 - k,
        {
            s[k] = k as u8;
            k = k + 1;
        }
        assert(s@ == identity_perm());
        let mut j: u8 = 0;
        if key.len() > 0 {
            let mut i: usize = 0;
            while i < 256
                invariant
                    i <= 256,
                    key@.len() > 0,
                    s@.len() == 256,
                    (s@, j) == ksa_rounds(key@, i as nat),
                decreases 256 - i,
            {
                j = j.wrapping_add(s[i]).wrapping_add(key[i % key.len()]);
                let a = s[i];
                let b = s[j as usize];
                s[i] = b;
                s[j as usize] = a;
                i = i + 1;
            }
        }
        proof {
            if key@.len() == 0 {
                lemma_identity_permutation();
            } else {
                lemma_ksa_permutation(key@, 256);
            }
        }
        Rc4 { i: 0, j: 0, s }
    }

    /// XORs `data` in place with the next `data.len()` keystream bytes.
    pub fn apply_keystream(&mut self, data: &mut [u8])
        ensures
            final(data)@ == xor_seq(old(data)@, keystream(old(self)@, old(data)@.len())),
            final(self)@ == advance(old(self)@, old(data)@.len()),
            final(self)@.s.len() == 256,
            is_byte_permutation(final(self)@.s),
    {
        proof {
            use_type_invariant(&*self);
        }
        let ghost m0 = self@;
        let ghost d0 = data@;
        let n = data.len();
        let mut i: u8 = self.i;
        let mut j: u8 = self.j;
        let mut s: [u8; 256] = self.s;
        let mut k: usize = 0;
        while k < n
            invariant
                k <= n,
                n == d0.len(),
                data@.len() == n,
                (Rc4Model { i, j, s: s@ }) == advance(m0, k as nat),
                s@.len() == 256,
                forall|t: int| 0 <= t < k ==> data@[t] == d0[t] ^ keystream(m0, k as nat)[t],
                forall|t: int| k <= t < n ==> data@[t] == d0[t],
                keystream(m0, k as nat).len() == k,
            decreases n - k,
        {
            let ghost before = Rc4Model { i, j, s: s@ };
            i = i.wrapping_add(1);
            j = j.wrapping_add(s[i as usize]);
            let a = s[i as usize];
            let b = s[j as usize];
            s[i as usize] = b;
            s[j as usize] = a;
            let idx = s[i as usize].wrapping_add(s[j as usize]);
            let kb = s[idx as usize];
            data[k] = data[k] ^ kb;
            proof {
                assert(Rc4Model { i, j, s: s@ } == prga_step(before));
                assert(kb == prga_byte(before));
                assert(keystream(m0, (k + 1) as nat) == keystream(m0, k as nat).push(kb));
            }
            k = k + 1;
        }
        proof {
            assert(data@ == xor_seq(d0, keystream(m0, n as nat)));
            advance_keeps_permutation(m0, n as nat);
        }
        *self = Rc4 { i, j, s };
    }
}


/// Padding string of the standard security handler (PDF 1.4, algorithm 3.2).
pub const PADDING: [u8; 32] = [
    0x28, 0xbf, 0x4e, 0x5e, 0x4e, 0x75, 0x8a, 0x41,
    0x64, 0x00, 0x4e, 0x56, 0xff, 0xfa, 0x01, 0x08,
    0x2e, 0x2e, 0x00, 0xb6, 0xd0, 0x68, 0x3e, 0x80,
    0x2f, 0x0c, 0xa9, 0xfe, 0x64, 0x53, 0x69, 0x7a,
];

/// The MD5 digest of `data` as the `md5` crate computes it.
pub uninterp spec fn md5_of(data: Seq<u8>) -> Seq<u8>;

/// MD5 digest of `data`, by `md5::compute`.
#[verifier::external_body]
fn md5_digest(data: &[u8]) -> (r: [u8; 16])
    ensures
        r@ == md5_of(data@),
{
    md5::compute(data).0
}

/// `d` hashed `n` more times with MD5.
pub open spec fn md5_rehash(d: Seq<u8>, n: nat) -> Seq<u8>
    decreases n,
{
    if n == 0 {
        d
    } else {
        md5_of(md5_rehash(d, (n - 1) as nat))
    }
}

/// A password's bytes, truncated or completed with `PADDING` to exactly 32 bytes.
pub open spec fn spec_pad(b: Seq<u8>) -> Seq<u8> {
    if b.len() >= 32 {
        b.take(32)
    } else {
        b + PADDING@.take(32 - b.len())
    }
}

/// Every byte of `key` XORed with `x`.
pub open spec fn key_xor(key: Seq<u8>, x: u8) -> Seq<u8> {
    Seq::new(key.len(), |k: int| key[k] ^ x)
}

/// `n` successive RC4 passes over `data`, pass `t` keyed with `key` XORed by `t`.
pub open spec fn rc4_rounds(key: Seq<u8>, data: Seq<u8>, n: nat) -> Seq<u8>
    decreases n,
{
    if n == 0 {
        data
    } else {
        rc4_crypt(key_xor(key, (n - 1) as u8), rc4_rounds(key, data, (n - 1) as nat))
    }
}

/// Little-endian bytes of a 32-bit value.
pub open spec fn le_u32(p: u32) -> Seq<u8> {
    seq![(p % 256) as u8, ((p / 256) % 256) as u8, ((p / 65536) % 256) as u8, ((p / 16777216) % 256) as u8]
}

/// Access permissions granted to a user who opens the document with the user password.
#[derive(Clone, Copy, Debug)]
pub struct PdfPermissions {
    pub can_print: bool,
    pub can_modify: bool,
    pub can_copy: bool,
    pub can_add_notes: bool,
}

impl Default for PdfPermissions {
    fn default() -> (r: Self)
        ensures
            r.can_print && r.can_modify && r.can_copy && r.can_add_notes,
    {
        PdfPermissions { can_print: true, can_modify: true, can_copy: true, can_add_notes: true }
    }
}

/// The `/P` permission word: all bits set except 0, 1 and the refused permissions
/// (bit 2 print, 3 modify, 4 copy, 5 annotate).
pub open spec fn spec_permission_bits(perms: PdfPermissions) -> u32 {
    0xFFFF_FFC0u32
        | (if perms.can_print { 4u32 } else { 0u32 })
        | (if perms.can_modify { 8u32 } else { 0u32 })
        | (if perms.can_copy { 16u32 } else { 0u32 })
        | (if perms.can_add_notes { 32u32 } else { 0u32 })
}

/// Computes the `/P` permission word.
pub fn permission_bits(perms: PdfPermissions) -> (p: u32)
    ensures
        p == spec_permission_bits(perms),
{
    let mut p: u32 = 0xFFFFFFFC;
    let print_mask: u32 = if !perms.can_print { !(1u32 << 2u32) } else { 0xFFFF_FFFFu32 };
    let modify_mask: u32 = if !perms.can_modify { !(1u32 << 3u32) } else { 0xFFFF_FFFFu32 };
    let copy_mask: u32 = if !perms.can_copy { !(1u32 << 4u32) } else { 0xFFFF_FFFFu32 };
    let notes_mask: u32 = if !perms.can_add_notes { !(1u32 << 5u32) } else { 0xFFFF_FFFFu32 };
    p = p & print_mask;
    p = p & modify_mask;
    p = p & copy_mask;
    p = p & notes_mask;
    let a = perms.can_print;
    let b = perms.can_modify;
    let c = perms.can_copy;
    let d = perms.can_add_notes;
    assert(p == (0xFFFF_FFC0u32
        | (if a { 4u32 } else { 0u32 })
        | (if b { 8u32 } else { 0u32 })
        | (if c { 16u32 } else { 0u32 })
        | (if d { 32u32 } else { 0u32 }))) by (bit_vector)
        requires
            p == (((((0xFFFFFFFCu32 & (if a { 0xFFFF_FFFFu32 } else { !(1u32 << 2u32) }))
                & (if b { 0xFFFF_FFFFu32 } else { !(1u32 << 3u32) }))
                & (if c { 0xFFFF_FFFFu32 } else { !(1u32 << 4u32) }))
                & (if d { 0xFFFF_FFFFu32 } else { !(1u32 << 5u32) })));
    p
}

/// `key` with every byte XORed with `x`.
fn xor_key(key: &[u8; 16], x: u8) -> (r: [u8; 16])
    ensures
        r@ == key_xor(key@, x),
{
    let mut r: [u8; 16] = *key;
    let mut k: usize = 0;
    while k < 16
        invariant
            k <= 16,
            r@.len() == 16,
            forall|t: int| 0 <= t < k ==> r@[t] == key@[t] ^ x,
            forall|t: int| k <= t < 16 ==> r@[t] == key@[t],
        decreases 16 - k,
    {
        r[k] = r[k] ^ x;
        k = k + 1;
    }
    assert(r@ == key_xor(key@, x));
    r
}

/// Twenty RC4 passes over `data`, pass `t` keyed with `key` XORed by `t` (algorithms 3.3 and 3.5).
fn rc4_twenty_rounds(key: &[u8; 16], data: &mut [u8])
    ensures
        final(data)@ == rc4_rounds(key@, old(data)@, 20),
{
    let ghost d0 = data@;
    let mut t: u8 = 0;
    while t < 20
        invariant
            t <= 20,
            data@ == rc4_rounds(key@, d0, t as nat),
        decreases 20 - t,
    {
        let ck = xor_key(key, t);
        let mut rc4 = Rc4::new(ck.as_slice());
        rc4.apply_keystream(data);
        t = t + 1;
    }
}

/// Owner password hash after the 50 extra MD5 rounds of algorithm 3.3.
pub open spec fn spec_owner_key(owner_pad: Seq<u8>) -> Seq<u8> {
    md5_rehash(md5_of(owner_pad), 50)
}

/// The `/O` entry: the padded user password encrypted under the owner key.
pub open spec fn spec_owner_entry(owner_pad: Seq<u8>, user_pad: Seq<u8>) -> Seq<u8> {
    rc4_rounds(spec_owner_key(owner_pad), user_pad, 20)
}

/// The 128-bit file key of algorithm 3.2.
pub open spec fn spec_file_key(user_pad: Seq<u8>, o: Seq<u8>, p: u32, doc_id: Seq<u8>) -> Seq<u8> {
    md5_rehash(md5_of(user_pad + o + le_u32(p) + doc_id), 50).take(16)
}

/// The `/U` entry of algorithm 3.5: 16 bytes of encrypted hash followed by 16 padding bytes.
pub open spec fn spec_user_entry(key: Seq<u8>, doc_id: Seq<u8>) -> Seq<u8> {
    rc4_rounds(key, md5_of(PADDING@ + doc_id), 20).take(16) + PADDING@.take(16)
}

/// The padded owner password: the user's when the owner password is empty.
pub open spec fn spec_owner_pad(owner: Seq<char>, user: Seq<char>) -> Seq<u8> {
    if owner.len() == 0 {
        spec_pad(vstd::utf8::encode_utf8(user))
    } else {
        spec_pad(vstd::utf8::encode_utf8(owner))
    }
}

/// The per-object key: MD5 of the file key, the low three bytes of the object number and
/// the two bytes of the generation number, cut to the file key length plus five (at most 16).
pub open spec fn spec_obj_key(file_key: Seq<u8>, obj_num: u32, gen_num: u16) -> Seq<u8> {
    md5_of(
        file_key + le_u32(obj_num).take(3) + seq![(gen_num % 256) as u8, (gen_num / 256) as u8],
    ).take(if file_key.len() >= 11 { 16int } else { file_key.len() + 5int })
}

/// `h` holds exactly the entries derived from these passwords, permissions and document ID.
pub open spec fn is_handler_for(h: SecurityHandler, owner: Seq<char>, user: Seq<char>, perms: PdfPermissions, doc_id: Seq<u8>) -> bool {
    &&& h.p as u32 == spec_permission_bits(perms)
    &&& h.o@ == spec_owner_entry(spec_owner_pad(owner, user), spec_pad(vstd::utf8::encode_utf8(user)))
    &&& h.encryption_key@ == spec_file_key(spec_pad(vstd::utf8::encode_utf8(user)), h.o@, spec_permission_bits(perms), doc_id)
    &&& h.u@ == spec_user_entry(h.encryption_key@, doc_id)
}

/// Encryption material of the standard security handler.
pub struct SecurityHandler {
    pub o: [u8; 32],
    pub u: [u8; 32],
    pub p: i32,
    pub encryption_key: Vec<u8>,
}

impl SecurityHandler {
    /// The password's UTF-8 bytes cut to 32 bytes, or completed to 32 bytes with `PADDING`.
    pub fn pad_pwd(pwd: &str) -> (r: [u8; 32])
        ensures
            r@ == spec_pad(vstd::utf8::encode_utf8(pwd@)),
    {
        let bytes = pwd.as_bytes();
        let len = if bytes.len() < 32 { bytes.len() } else { 32 };
        let mut padded: [u8; 32] = [0u8; 32];
        let mut k: usize = 0;
        while k < 32
            invariant
                k <= 32,
                len == (if bytes@.len() < 32 { bytes@.len() } else { 32 }),
                padded@.len() == 32,
                forall|t: int| 0 <= t < k ==> padded@[t] == (if t < len { bytes@[t] } else { PADDING@[t - len] }),
            decreases 32 - k,
        {
            if k < len {
                padded[k] = bytes[k];
            } else {
                padded[k] = PADDING[k - len];
            }
            k = k + 1;
        }
        assert(padded@ == spec_pad(bytes@));
        padded
    }

    /// Derives `/O`, `/U`, `/P` and the file key from the passwords, permissions and document ID.
    pub fn new(owner: &str, user: &str, perms: PdfPermissions, doc_id: &[u8]) -> (r: Self)
        ensures
            is_handler_for(r, owner@, user@, perms, doc_id@),
            r.encryption_key@.len() == 16,
    {
        let p = permission_bits(perms);
        let p_i32 = p as i32;
        let user_pad = Self::pad_pwd(user);
        let owner_pad = if owner.is_empty() { user_pad } else { Self::pad_pwd(owner) };

        let mut o_key = md5_digest(owner_pad.as_slice());
        let mut round: usize = 0;
        while round < 50
            invariant
                round <= 50,
                o_key@ == md5_rehash(md5_of(owner_pad@), round as nat),
            decreases 50 - round,
        {
            o_key = md5_digest(o_key.as_slice());
            round = round + 1;
        }

        let mut o: [u8; 32] = user_pad;
        rc4_twenty_rounds(&o_key, &mut o);

        let mut buf: Vec<u8> = Vec::new();
        push_all(&mut buf, user_pad.as_slice());
        push_all(&mut buf, o.as_slice());
        let p_bytes: [u8; 4] = [(p % 256) as u8, ((p / 256) % 256) as u8, ((p / 65536) % 256) as u8, ((p / 16777216) % 256) as u8];
        push_all(&mut buf, p_bytes.as_slice());
        push_all(&mut buf, doc_id);
        proof {
            assert(p_bytes@ == le_u32(p));
        }
        let mut enc_key = md5_digest(buf.as_slice());
        let mut round: usize = 0;
        while round < 50
            invariant
                round <= 50,
                enc_key@ == md5_rehash(md5_of(buf@), round as nat),
            decreases 50 - round,
        {
            enc_key = md5_digest(enc_key.as_slice());
            round = round + 1;
        }
        let mut encryption_key: Vec<u8> = Vec::new();
        push_all(&mut encryption_key, enc_key.as_slice());
        proof {
            assert(enc_key@.take(16) == enc_key@);
        }

        let mut hbuf: Vec<u8> = Vec::new();
        push_all(&mut hbuf, PADDING.as_slice());
        push_all(&mut hbuf, doc_id);
        let mut u_res = md5_digest(hbuf.as_slice());
        rc4_twenty_rounds(&enc_key, &mut u_res);

        let mut u: [u8; 32] = [0u8; 32];
        let mut k: usize = 0;
        while k < 32
            invariant
                k <= 32,
                u@.len() == 32,
                forall|t: int| 0 <= t < k ==> u@[t] == (if t < 16 { u_res@[t] } else { PADDING@[t - 16] }),
            decreases 32 - k,
        {
            if k < 16 {
                u[k] = u_res[k];
            } else {
                u[k] = PADDING[k - 16];
            }
            k = k + 1;
        }
        proof {
            assert(u_res@.take(16) == u_res@);
            assert(u@ == u_res@.take(16) + PADDING@.take(16));
            assert((p as i32) as u32 == p) by (bit_vector);
        }
        SecurityHandler { o, u, p: p_i32, encryption_key }
    }

    /// The RC4 key for the object `obj_num`, generation `gen_num`.
    pub fn get_obj_key(&self, obj_num: u32, gen_num: u16) -> (r: Vec<u8>)
        ensures
            r@ == spec_obj_key(self.encryption_key@, obj_num, gen_num),
    {
        let mut buf: Vec<u8> = Vec::new();
        push_all(&mut buf, self.encryption_key.as_slice());
        let obj_bytes: [u8; 3] = [(obj_num % 256) as u8, ((obj_num / 256) % 256) as u8, ((obj_num / 65536) % 256) as u8];
        push_all(&mut buf, obj_bytes.as_slice());
        let gen_bytes: [u8; 2] = [(gen_num % 256) as u8, (gen_num / 256) as u8];
        push_all(&mut buf, gen_bytes.as_slice());
        proof {
            assert(obj_bytes@ == le_u32(obj_num).take(3));
        }
        let hash = md5_digest(buf.as_slice());
        let len: usize = if self.encryption_key.len() >= 11 { 16 } else { self.encryption_key.len() + 5 };
        let mut r: Vec<u8> = Vec::new();
        let mut k: usize = 0;
        while k < len
            invariant
                k <= len,
                len <= 16,
                r@ == hash@.take(k as int),
            decreases len - k,
        {
            r.push(hash[k]);
            k = k + 1;
        }
        r
    }

    /// Encrypts (or decrypts) `data` in place with the key of object `obj_num`, generation `gen_num`.
    pub fn encrypt_bytes(&self, obj_num: u32, gen_num: u16, data: &mut [u8])
        ensures
            final(data)@ == rc4_crypt(spec_obj_key(self.encryption_key@, obj_num, gen_num), old(data)@),
    {
        let key = self.get_obj_key(obj_num, gen_num);
        let mut rc4 = Rc4::new(key.as_slice());
        rc4.apply_keystream(data);
    }
}

/// Exclusive or with the same byte twice leaves a byte unchanged.
proof fn lemma_xor_twice(a: u8, b: u8)
    ensures
        (a ^ b) ^ b == a,
{
    assert((a ^ b) ^ b == a) by (bit_vector);
}

/// RC4 is its own inverse: encrypting twice under one key gives back the data.
pub proof fn lemma_rc4_involution(key: Seq<u8>, data: Seq<u8>)
    ensures
        rc4_crypt(key, rc4_crypt(key, data)) == data,
{
    let ks = keystream(rc4_init(key), data.len());
    let once = rc4_crypt(key, data);
    assert forall|k: int| 0 <= k < data.len() implies #[trigger] rc4_crypt(key, once)[k] == data[k] by {
        lemma_xor_twice(data[k], ks[k]);
    }
    assert(rc4_crypt(key, once) =~= data);
}

/// `n` keystream bytes are `n` bytes.
proof fn lemma_keystream_len(m: Rc4Model, n: nat)
    ensures
        keystream(m, n).len() == n,
    decreases n,
{
    if n > 0 {
        lemma_keystream_len(m, (n - 1) as nat);
    }
}

/// Advancing by `a` bytes and then by `b` bytes is advancing by `a + b` bytes.
proof fn lemma_advance_add(m: Rc4Model, a: nat, b: nat)
    ensures
        advance(advance(m, a), b) == advance(m, a + b),
    decreases b,
{
    if b > 0 {
        lemma_advance_add(m, a, (b - 1) as nat);
        assert(advance(m, a + b) == prga_step(advance(m, (a + b - 1) as nat)));
    }
}

/// The first `a + b` keystream bytes are the first `a`, then the first `b` of the state
/// reached after `a` bytes.
proof fn lemma_keystream_split(m: Rc4Model, a: nat, b: nat)
    ensures
        keystream(m, a + b) == keystream(m, a) + keystream(advance(m, a), b),
    decreases b,
{
    if b == 0 {
        assert(keystream(m, a) + keystream(advance(m, a), 0) =~= keystream(m, a));
    } else {
        lemma_keystream_split(m, a, (b - 1) as nat);
        lemma_advance_add(m, a, (b - 1) as nat);
        assert(keystream(m, a + b) == keystream(m, (a + b - 1) as nat).push(prga_byte(advance(m, (a + b - 1) as nat))));
        assert(keystream(m, a + b) =~= keystream(m, a) + keystream(advance(m, a), b));
    }
}

/// Encrypting `a` and then `b` with one cipher gives what encrypting `a` followed by `b` in
/// one piece gives, and leaves the cipher in the same state.
pub proof fn keystream_applies_in_pieces(m: Rc4Model, a: Seq<u8>, b: Seq<u8>)
    ensures
        xor_seq(a, keystream(m, a.len())) + xor_seq(b, keystream(advance(m, a.len()), b.len()))
            == xor_seq(a + b, keystream(m, (a + b).len())),
        advance(advance(m, a.len()), b.len()) == advance(m, (a + b).len()),
{
    lemma_keystream_split(m, a.len(), b.len());
    lemma_advance_add(m, a.len(), b.len());
    lemma_keystream_len(m, a.len());
    lemma_keystream_len(m, (a + b).len());
    let ka = keystream(m, a.len());
    let kb = keystream(advance(m, a.len()), b.len());
    assert(keystream(m, (a + b).len()) == ka + kb);
    assert forall|k: int| 0 <= k < (a + b).len() implies #[trigger] xor_seq(a + b, ka + kb)[k]
        == (xor_seq(a, ka) + xor_seq(b, kb))[k] by {
        if k < a.len() {
            assert((ka + kb)[k] == ka[k]);
        } else {
            assert((ka + kb)[k] == kb[k - a.len()]);
        }
    }
    assert(xor_seq(a, keystream(m, a.len())) + xor_seq(b, keystream(advance(m, a.len()), b.len()))
        =~= xor_seq(a + b, keystream(m, (a + b).len())));
}

/// A permutation of the 256 byte values: 256 entries, no two equal.
pub open spec fn is_byte_permutation(s: Seq<u8>) -> bool {
    s.len() == 256 && s.no_duplicates()
}

/// Exchanging two entries keeps a permutation.
proof fn lemma_swap_permutation(s: Seq<u8>, a: int, b: int)
    requires
        is_byte_permutation(s),
        0 <= a < 256,
        0 <= b < 256,
    ensures
        is_byte_permutation(swap_at(s, a, b)),
{
    let t = swap_at(s, a, b);
    assert forall|x: int, y: int| 0 <= x < t.len() && 0 <= y < t.len() && x != y implies t[x] != t[y] by {
        let px = if x == a { b } else if x == b { a } else { x };
        let py = if y == a { b } else if y == b { a } else { y };
        assert(t[x] == s[px]);
        assert(t[y] == s[py]);
    }
}

proof fn lemma_identity_permutation()
    ensures
        is_byte_permutation(identity_perm()),
{
    let s = identity_perm();
    assert forall|x: int, y: int| 0 <= x < s.len() && 0 <= y < s.len() && x != y implies s[x] != s[y] by {
        assert(s[x] == x as u8 && s[y] == y as u8);
    }
}

proof fn lemma_ksa_permutation(key: Seq<u8>, n: nat)
    requires
        n <= 256,
        key.len() > 0,
    ensures
        is_byte_permutation(ksa_rounds(key, n).0),
    decreases n,
{
    if n == 0 {
        lemma_identity_permutation();
    } else {
        lemma_ksa_permutation(key, (n - 1) as nat);
        let (s, j) = ksa_rounds(key, (n - 1) as nat);
        let i = n - 1;
        let j2 = j.wrapping_add(s[i]).wrapping_add(key[i % key.len() as int]);
        lemma_swap_permutation(s, i, j2 as int);
    }
}

/// Producing keystream keeps the table of any cipher state a permutation.
pub proof fn advance_keeps_permutation(m: Rc4Model, n: nat)
    requires
        is_byte_permutation(m.s),
    ensures
        is_byte_permutation(advance(m, n).s),
    decreases n,
{
    if n > 0 {
        advance_keeps_permutation(m, (n - 1) as nat);
        let p = advance(m, (n - 1) as nat);
        let i = p.i.wrapping_add(1);
        let j = p.j.wrapping_add(p.s[i as int]);
        lemma_swap_permutation(p.s, i as int, j as int);
    }
}

/// A keyed cipher's table stays a permutation of the 256 byte values however many keystream
/// bytes it has produced.
pub proof fn cipher_state_stays_permutation(key: Seq<u8>, n: nat)
    ensures
        is_byte_permutation(advance(rc4_init(key), n).s),
{
    if key.len() == 0 {
        lemma_identity_permutation();
    } else {
        lemma_ksa_permutation(key, 256);
    }
    advance_keeps_permutation(rc4_init(key), n);
}

proof fn lemma_ksa_doubled(key: Seq<u8>, n: nat)
    requires
        key.len() > 0,
        n <= 256,
    ensures
        ksa_rounds(key + key, n) == ksa_rounds(key, n),
    decreases n,
{
    if n > 0 {
        lemma_ksa_doubled(key, (n - 1) as nat);
        let i = n - 1;
        let l = key.len() as int;
        let kk = key + key;
        vstd::arithmetic::div_mod::lemma_mod_mod(i, l, 2);
        vstd::arithmetic::div_mod::lemma_mod_bound(i, 2 * l);
        let m = i % (2 * l);
        assert(kk[m] == key[m % l]) by {
            if m >= l {
                vstd::arithmetic::div_mod::lemma_mod_sub_multiples_vanish(m, l);
                vstd::arithmetic::div_mod::lemma_small_mod((m - l) as nat, l as nat);
                assert(m % l == m - l);
            } else {
                vstd::arithmetic::div_mod::lemma_small_mod(m as nat, l as nat);
            }
        }
        assert(kk.len() as int == l * 2);
    }
}

/// A key repeated twice keys the cipher exactly as the key itself: the key schedule takes
/// the key's bytes cyclically.
pub proof fn doubled_key_same_cipher(key: Seq<u8>)
    requires
        key.len() > 0,
    ensures
        rc4_init(key + key) == rc4_init(key),
{
    lemma_ksa_doubled(key, 256);
}

/// Encrypting an object's bytes twice with `encrypt_bytes` restores them.
pub proof fn encrypt_bytes_twice_restores(file_key: Seq<u8>, obj_num: u32, gen_num: u16, data: Seq<u8>)
    ensures
        rc4_crypt(spec_obj_key(file_key, obj_num, gen_num), rc4_crypt(spec_obj_key(file_key, obj_num, gen_num), data)) == data,
{
    lemma_rc4_involution(spec_obj_key(file_key, obj_num, gen_num), data);
}

} // verus!
