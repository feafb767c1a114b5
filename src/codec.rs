use vstd::prelude::*;

verus! {

/// The largest length that a two-byte length prefix can carry.
pub const MAX_PREFIXED_LEN: usize = 0xFFFF;

/// `n` as two big-endian bytes.
pub open spec fn length_prefix(n: nat) -> Seq<u8> {
    seq![(n / 256) as u8, (n % 256) as u8]
}

/// `b` preceded by its length.
pub open spec fn length_prefixed(b: Seq<u8>) -> Seq<u8> {
    length_prefix(b.len()) + b
}

/// The store key of `key` in the map whose namespace is `namespace`.
pub open spec fn namespaced_key_spec(namespace: Seq<u8>, key: Seq<u8>) -> Seq<u8> {
    length_prefixed(namespace) + key
}

/// The common start of every entry for secondary key `sk` in the index named
/// `index_name` of the map whose namespace is `namespace`.
pub open spec fn index_prefix_spec(namespace: Seq<u8>, index_name: Seq<u8>, sk: Seq<u8>) -> Seq<u8> {
    length_prefixed(namespace) + length_prefixed(index_name) + length_prefixed(sk)
}

/// The store key of the index entry that points from `sk` to `pk`.
pub open spec fn index_entry_key_spec(
    namespace: Seq<u8>,
    index_name: Seq<u8>,
    sk: Seq<u8>,
    pk: Seq<u8>,
) -> Seq<u8> {
    index_prefix_spec(namespace, index_name, sk) + pk
}

pub open spec fn has_prefix(s: Seq<u8>, p: Seq<u8>) -> bool {
    p.len() <= s.len() && s.subrange(0, p.len() as int) == p
}

/// Appends `b` to `out`.
fn append_bytes(out: &mut Vec<u8>, b: &[u8])
    ensures
        final(out)@ == old(out)@ + b@,
{
    let ghost start = out@;
    let mut i: usize = 0;
    while i < b.len()
        invariant
            i <= b@.len(),
            out@ == start + b@.subrange(0, i as int),
        decreases b@.len() - i,
    {
        out.push(b[i]);
        i = i + 1;
        assert(out@ =~= start + b@.subrange(0, i as int));
    }
    assert(b@.subrange(0, b@.len() as int) =~= b@);
}

/// Appends `b` to `out`, preceded by its length.
fn append_length_prefixed(out: &mut Vec<u8>, b: &[u8])
    requires
        b@.len() <= MAX_PREFIXED_LEN,
    ensures
        final(out)@ == old(out)@ + length_prefixed(b@),
{
    let n = b.len();
    let ghost start = out@;
    out.push((n / 256) as u8);
    out.push((n % 256) as u8);
    append_bytes(out, b);
    assert(out@ =~= start + length_prefixed(b@));
}

/// The store key of `key` in the map whose namespace is `namespace`.
pub fn namespaced_key(namespace: &[u8], key: &[u8]) -> (r: Vec<u8>)
    requires
        namespace@.len() <= MAX_PREFIXED_LEN,
    ensures
        r@ == namespaced_key_spec(namespace@, key@),
{
    let mut out: Vec<u8> = Vec::new();
    append_length_prefixed(&mut out, namespace);
    append_bytes(&mut out, key);
    assert(out@ =~= namespaced_key_spec(namespace@, key@));
    out
}

/// The start shared by the index entries for `sk`: a scan over it yields
/// exactly the entries for `sk`.
pub fn index_prefix(namespace: &[u8], index_name: &[u8], sk: &[u8]) -> (r: Vec<u8>)
    requires
        namespace@.len() <= MAX_PREFIXED_LEN,
        index_name@.len() <= MAX_PREFIXED_LEN,
        sk@.len() <= MAX_PREFIXED_LEN,
    ensures
        r@ == index_prefix_spec(namespace@, index_name@, sk@),
{
    let mut out: Vec<u8> = Vec::new();
    append_length_prefixed(&mut out, namespace);
    append_length_prefixed(&mut out, index_name);
    append_length_prefixed(&mut out, sk);
    assert(out@ =~= index_prefix_spec(namespace@, index_name@, sk@));
    out
}

/// The store key of the index entry that points from `sk` to `pk`.
pub fn index_entry_key(namespace: &[u8], index_name: &[u8], sk: &[u8], pk: &[u8]) -> (r: Vec<u8>)
    requires
        namespace@.len() <= MAX_PREFIXED_LEN,
        index_name@.len() <= MAX_PREFIXED_LEN,
        sk@.len() <= MAX_PREFIXED_LEN,
    ensures
        r@ == index_entry_key_spec(namespace@, index_name@, sk@, pk@),
{
    let mut out = index_prefix(namespace, index_name, sk);
    append_bytes(&mut out, pk);
    out
}

/// A length-prefixed segment followed by anything determines both the
/// segment and what follows it.
pub proof fn lemma_length_prefixed_injective(a1: Seq<u8>, k1: Seq<u8>, a2: Seq<u8>, k2: Seq<u8>)
    requires
        a1.len() <= MAX_PREFIXED_LEN,
        a2.len() <= MAX_PREFIXED_LEN,
        length_prefixed(a1) + k1 == length_prefixed(a2) + k2,
    ensures
        a1 == a2,
        k1 == k2,
{
    let s = length_prefixed(a1) + k1;
    let t = length_prefixed(a2) + k2;
    let n1 = a1.len() as int;
    let n2 = a2.len() as int;
    assert(s[0] == t[0] && s[1] == t[1]);
    assert(0 <= n1 / 256 < 256 && 0 <= n2 / 256 < 256) by (nonlinear_arith)
        requires
            0 <= n1 <= 0xFFFF,
            0 <= n2 <= 0xFFFF,
    ;
    assert(n1 == n2) by (nonlinear_arith)
        requires
            0 <= n1,
            0 <= n2,
            n1 / 256 == n2 / 256,
            n1 % 256 == n2 % 256,
    ;
    assert(a1 =~= s.subrange(2, 2 + n1));
    assert(a2 =~= t.subrange(2, 2 + n2));
    assert(k1 =~= s.subrange(2 + n1, s.len() as int));
    assert(k2 =~= t.subrange(2 + n2, t.len() as int));
}

/// Keys of two maps collide only when both the namespaces and the keys are
/// the same; so maps with different namespaces never share a store key.
pub proof fn lemma_namespaced_key_injective(ns1: Seq<u8>, k1: Seq<u8>, ns2: Seq<u8>, k2: Seq<u8>)
    requires
        ns1.len() <= MAX_PREFIXED_LEN,
        ns2.len() <= MAX_PREFIXED_LEN,
        namespaced_key_spec(ns1, k1) == namespaced_key_spec(ns2, k2),
    ensures
        ns1 == ns2,
        k1 == k2,
{
    lemma_length_prefixed_injective(ns1, k1, ns2, k2);
}

/// An index entry starts with the scan prefix of a secondary key exactly when
/// the entry belongs to that secondary key, even where one secondary key is a
/// prefix of another.
pub proof fn lemma_index_prefix_selects_secondary_key(
    ns: Seq<u8>,
    name: Seq<u8>,
    sk: Seq<u8>,
    pk: Seq<u8>,
    sk2: Seq<u8>,
)
    requires
        ns.len() <= MAX_PREFIXED_LEN,
        name.len() <= MAX_PREFIXED_LEN,
        sk.len() <= MAX_PREFIXED_LEN,
        sk2.len() <= MAX_PREFIXED_LEN,
    ensures
        has_prefix(index_entry_key_spec(ns, name, sk, pk), index_prefix_spec(ns, name, sk2)) <==> sk
            == sk2,
{
    let e = index_entry_key_spec(ns, name, sk, pk);
    let p = index_prefix_spec(ns, name, sk2);
    let m = (length_prefixed(ns).len() + length_prefixed(name).len()) as int;
    if sk == sk2 {
        assert(e.subrange(0, p.len() as int) =~= p);
    }
    if has_prefix(e, p) {
        let rest = e.subrange(p.len() as int, e.len() as int);
        assert(e.subrange(m, e.len() as int) =~= length_prefixed(sk) + pk);
        assert(e.subrange(m, e.len() as int) =~= length_prefixed(sk2) + rest) by {
            assert(e =~= p + rest);
        }
        lemma_length_prefixed_injective(sk, pk, sk2, rest);
    }
}

} // verus!
