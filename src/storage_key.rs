use vstd::prelude::*;
use vstd::utf8::{decode_utf8, encode_utf8, encode_utf8_decode_utf8};
use vstd::string::StrSliceExecFns;

verus! {

/// Keys of the persistent collections: the registry itself, and the guest set
/// of one event owner.
pub enum StorageKey {
    Events,
    Guests { event_owner_id: String },
}

/// A length as four little-endian bytes.
pub open spec fn u32_le(n: nat) -> Seq<u8> {
    seq![
        (n % 256) as u8,
        ((n / 256) % 256) as u8,
        ((n / 65536) % 256) as u8,
        ((n / 16777216) % 256) as u8,
    ]
}

/// The canonical binary form of a string: its UTF-8 length as four
/// little-endian bytes, then its UTF-8 bytes.
pub open spec fn string_bytes(s: Seq<char>) -> Seq<u8> {
    u32_le(encode_utf8(s).len()) + encode_utf8(s)
}

/// The root key of the guest set owned by `owner`.
pub open spec fn guest_root(owner: Seq<char>) -> Seq<u8> {
    seq![1u8] + string_bytes(owner)
}

/// Whether the canonical binary form of `owner` can state its length.
pub open spec fn owner_fits(owner: Seq<char>) -> bool {
    encode_utf8(owner).len() <= u32::MAX
}

impl StorageKey {
    /// The bytes of the key: a variant tag, then the owner's canonical form
    /// for a guest-set key.
    pub open spec fn spec_bytes(&self) -> Seq<u8> {
        match self {
            StorageKey::Events => seq![0u8],
            StorageKey::Guests { event_owner_id } => guest_root(event_owner_id@),
        }
    }

    /// Whether the key can be written out.
    pub open spec fn fits(&self) -> bool {
        match self {
            StorageKey::Events => true,
            StorageKey::Guests { event_owner_id } => owner_fits(event_owner_id@),
        }
    }

    /// The byte key under which the collection is rooted.
    pub fn into_storage_key(&self) -> (r: Vec<u8>)
        requires
            self.fits(),
        ensures
            r@ == self.spec_bytes(),
    {
        match self {
            StorageKey::Events => {
                let mut r: Vec<u8> = Vec::new();
                r.push(0u8);
                assert(r@ =~= seq![0u8]);
                r
            },
            StorageKey::Guests { event_owner_id } => {
                let bytes = event_owner_id.as_str().as_bytes_vec();
                let n: u32 = bytes.len() as u32;
                let mut r: Vec<u8> = Vec::new();
                r.push(1u8);
                r.push((n % 256) as u8);
                r.push(((n / 256) % 256) as u8);
                r.push(((n / 65536) % 256) as u8);
                r.push(((n / 16777216) % 256) as u8);
                let ghost head = r@;
                assert(head =~= seq![1u8] + u32_le(encode_utf8(event_owner_id@).len()));
                let mut i: usize = 0;
                while i < bytes.len()
                    invariant
                        i <= bytes@.len(),
                        r@ == head + bytes@.subrange(0, i as int),
                    decreases bytes@.len() - i,
                {
                    r.push(bytes[i]);
                    assert(bytes@.subrange(0, i + 1) =~= bytes@.subrange(0, i as int).push(bytes@[i as int]));
                    i = i + 1;
                }
                assert(bytes@.subrange(0, bytes@.len() as int) =~= bytes@);
                assert(r@ =~= guest_root(event_owner_id@));
                r
            },
        }
    }
}

/// Distinct owners get distinct guest-set roots, and no guest-set root is the
/// registry's own key.
pub proof fn lemma_guest_roots_distinct(c1: Seq<char>, c2: Seq<char>)
    requires
        c1 != c2,
    ensures
        guest_root(c1) != guest_root(c2),
        guest_root(c1) != seq![0u8],
{
    let r1 = guest_root(c1);
    let r2 = guest_root(c2);
    assert(r1[0] == 1u8);
    if r1 == r2 {
        let e1 = encode_utf8(c1);
        let e2 = encode_utf8(c2);
        assert(r1.len() == 5 + e1.len());
        assert(r2.len() == 5 + e2.len());
        assert(r1.subrange(5, r1.len() as int) =~= e1);
        assert(r2.subrange(5, r2.len() as int) =~= e2);
        encode_utf8_decode_utf8(c1);
        encode_utf8_decode_utf8(c2);
        assert(decode_utf8(e1) == decode_utf8(e2));
    }
}

/// Whether `a` is an initial part of `b`.
pub open spec fn is_prefix(a: Seq<u8>, b: Seq<u8>) -> bool {
    a.len() <= b.len() && b.subrange(0, a.len() as int) == a
}

/// Four little-endian bytes determine a length that fits in them.
proof fn lemma_u32_le_injective(n1: nat, n2: nat)
    requires
        n1 <= u32::MAX,
        n2 <= u32::MAX,
        u32_le(n1) == u32_le(n2),
    ensures
        n1 == n2,
{
    let x = n1 as u32;
    let y = n2 as u32;
    assert(u32_le(n1)[0] == u32_le(n2)[0]);
    assert(u32_le(n1)[1] == u32_le(n2)[1]);
    assert(u32_le(n1)[2] == u32_le(n2)[2]);
    assert(u32_le(n1)[3] == u32_le(n2)[3]);
    assert(x % 256 == y % 256);
    assert((x / 256) % 256 == (y / 256) % 256);
    assert((x / 65536) % 256 == (y / 65536) % 256);
    assert((x / 16777216) % 256 == (y / 16777216) % 256);
    assert(x == y) by (bit_vector)
        requires
            x % 256 == y % 256,
            (x / 256) % 256 == (y / 256) % 256,
            (x / 65536) % 256 == (y / 65536) % 256,
            (x / 16777216) % 256 == (y / 16777216) % 256,
    ;
}

/// No guest-set root is an initial part of another owner's root, of the
/// registry's key, or has the registry's key as its initial part.
pub proof fn lemma_guest_roots_prefix_free(c1: Seq<char>, c2: Seq<char>)
    requires
        c1 != c2,
        owner_fits(c1),
        owner_fits(c2),
    ensures
        !is_prefix(guest_root(c1), guest_root(c2)),
        !is_prefix(guest_root(c1), seq![0u8]),
        !is_prefix(seq![0u8], guest_root(c1)),
{
    let r1 = guest_root(c1);
    let r2 = guest_root(c2);
    assert(r1[0] == 1u8);
    assert(r1.subrange(0, 1)[0] == 1u8);
    if is_prefix(r1, r2) {
        let n1 = encode_utf8(c1).len();
        let n2 = encode_utf8(c2).len();
        assert(r1.subrange(1, 5) =~= u32_le(n1));
        assert(r2.subrange(1, 5) =~= u32_le(n2));
        assert(r2.subrange(0, r1.len() as int).subrange(1, 5) =~= r2.subrange(1, 5));
        lemma_u32_le_injective(n1, n2);
        assert(r1.len() == r2.len());
        assert(r2.subrange(0, r2.len() as int) =~= r2);
        lemma_guest_roots_distinct(c1, c2);
    }
}

} // verus!
