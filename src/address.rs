use vstd::prelude::*;

verus! {

/// The binary encoding of a textual multiaddress, or none where the text is
/// not a valid multiaddress.
pub uninterp spec fn multiaddr_encoding(text: Seq<char>) -> Option<Seq<u8>>;

/// Relies on multiaddr's `FromStr` for `Multiaddr` and on `Multiaddr::to_vec`:
/// the binary encoding of the parsed address, none where parsing fails.
#[verifier::external_body]
fn encode_multiaddr_text(text: &str) -> (r: Option<Vec<u8>>)
    ensures
        match r {
            Some(v) => multiaddr_encoding(text@) == Some(v@),
            None => multiaddr_encoding(text@) is None,
        },
{
    match text.parse::<multiaddr::Multiaddr>() {
        Ok(m) => Some(m.to_vec()),
        Err(_) => None,
    }
}

/// Lexicographic order on byte strings: `a` sorts no later than `b`.
pub open spec fn bytes_le(a: Seq<u8>, b: Seq<u8>) -> bool
    decreases a.len(),
{
    if a.len() == 0 {
        true
    } else if b.len() == 0 {
        false
    } else if a[0] != b[0] {
        a[0] < b[0]
    } else {
        bytes_le(a.drop_first(), b.drop_first())
    }
}

pub proof fn lemma_bytes_le_total(a: Seq<u8>, b: Seq<u8>)
    ensures
        bytes_le(a, b) || bytes_le(b, a),
    decreases a.len(),
{
    if a.len() > 0 && b.len() > 0 && a[0] == b[0] {
        lemma_bytes_le_total(a.drop_first(), b.drop_first());
    }
}

pub proof fn lemma_bytes_le_transitive(a: Seq<u8>, b: Seq<u8>, c: Seq<u8>)
    requires
        bytes_le(a, b),
        bytes_le(b, c),
    ensures
        bytes_le(a, c),
    decreases a.len(),
{
    if a.len() > 0 && b.len() > 0 && c.len() > 0 && a[0] == b[0] && b[0] == c[0] {
        lemma_bytes_le_transitive(a.drop_first(), b.drop_first(), c.drop_first());
    }
}

/// A network endpoint of a peer, held as the binary encoding of its
/// multiaddress. Addresses are equal exactly when their encodings are.
#[derive(Debug, Clone)]
pub struct NetAddress {
    bytes: Vec<u8>,
}

impl View for NetAddress {
    type V = Seq<u8>;

    closed spec fn view(&self) -> Seq<u8> {
        self.bytes@
    }
}

fn copy_bytes(b: &[u8]) -> (r: Vec<u8>)
    ensures
        r@ == b@,
{
    let mut r: Vec<u8> = Vec::with_capacity(b.len());
    let mut i: usize = 0;
    while i < b.len()
        invariant
            i <= b@.len(),
            r@ == b@.subrange(0, i as int),
        decreases b@.len() - i,
    {
        r.push(b[i]);
        i += 1;
    }
    assert(r@ =~= b@);
    r
}

impl NetAddress {
    /// An address from its binary multiaddress encoding, taken as it is.
    pub fn from_bytes(bytes: Vec<u8>) -> (r: NetAddress)
        ensures
            r@ == bytes@,
    {
        NetAddress { bytes }
    }

    /// Parses a textual multiaddress such as `/ip4/127.0.0.1/tcp/8000`.
    pub fn parse(text: &str) -> (r: Option<NetAddress>)
        ensures
            match r {
                Some(a) => multiaddr_encoding(text@) == Some(a@),
                None => multiaddr_encoding(text@) is None,
            },
    {
        match encode_multiaddr_text(text) {
            Some(bytes) => Some(NetAddress { bytes }),
            None => None,
        }
    }

    pub fn as_bytes(&self) -> (r: &[u8])
        ensures
            r@ == self@,
    {
        self.bytes.as_slice()
    }

    /// A copy of this address.
    pub fn duplicate(&self) -> (r: NetAddress)
        ensures
            r@ == self@,
    {
        NetAddress { bytes: copy_bytes(self.bytes.as_slice()) }
    }

    /// Whether the two addresses have the same encoding.
    pub fn same_as(&self, other: &NetAddress) -> (r: bool)
        ensures
            r == (self@ == other@),
    {
        let a = self.bytes.as_slice();
        let b = other.bytes.as_slice();
        if a.len() != b.len() {
            return false;
        }
        let mut i: usize = 0;
        while i < a.len()
            invariant
                a@ == self@,
                b@ == other@,
                a@.len() == b@.len(),
                i <= a@.len(),
                a@.subrange(0, i as int) == b@.subrange(0, i as int),
            decreases a@.len() - i,
        {
            if a[i] != b[i] {
                return false;
            }
            assert(a@.subrange(0, i + 1) =~= a@.subrange(0, i as int).push(a@[i as int]));
            assert(b@.subrange(0, i + 1) =~= b@.subrange(0, i as int).push(b@[i as int]));
            i += 1;
        }
        assert(a@ =~= a@.subrange(0, i as int));
        assert(b@ =~= b@.subrange(0, i as int));
        true
    }

    /// Whether this address sorts no later than `other` by raw byte comparison
    /// of the encodings.
    pub fn bytes_le_than(&self, other: &NetAddress) -> (r: bool)
        ensures
            r == bytes_le(self@, other@),
    {
        let a = self.bytes.as_slice();
        let b = other.bytes.as_slice();
        let mut i: usize = 0;
        assert(a@.skip(0) =~= a@);
        assert(b@.skip(0) =~= b@);
        while i < a.len() && i < b.len()
            invariant
                a@ == self@,
                b@ == other@,
                i <= a@.len(),
                i <= b@.len(),
                bytes_le(a@, b@) == bytes_le(a@.skip(i as int), b@.skip(i as int)),
            decreases a@.len() - i,
        {
            assert(a@.skip(i as int)[0] == a@[i as int]);
            assert(b@.skip(i as int)[0] == b@[i as int]);
            if a[i] != b[i] {
                return a[i] < b[i];
            }
            assert(a@.skip(i as int).drop_first() =~= a@.skip(i + 1));
            assert(b@.skip(i as int).drop_first() =~= b@.skip(i + 1));
            i += 1;
        }
        assert(a@.skip(i as int).len() == a@.len() - i);
        assert(b@.skip(i as int).len() == b@.len() - i);
        i == a.len()
    }
}

impl PartialEq for NetAddress {
    fn eq(&self, other: &NetAddress) -> (r: bool) {
        self.same_as(other)
    }
}

impl vstd::std_specs::cmp::PartialEqSpecImpl for NetAddress {
    open spec fn obeys_eq_spec() -> bool {
        true
    }

    open spec fn eq_spec(&self, other: &NetAddress) -> bool {
        self@ == other@
    }
}

/// The encodings of a sequence of addresses.
pub open spec fn encodings(s: Seq<NetAddress>) -> Seq<Seq<u8>> {
    s.map_values(|a: NetAddress| a@)
}

/// Every encoding sorts no later than each one after it.
pub open spec fn lexicographically_sorted(s: Seq<Seq<u8>>) -> bool {
    forall|i: int, j: int| 0 <= i < j < s.len() ==> bytes_le(#[trigger] s[i], #[trigger] s[j])
}

proof fn lemma_insert_keeps_lex_sorted(s: Seq<Seq<u8>>, x: Seq<u8>, p: int)
    requires
        lexicographically_sorted(s),
        0 <= p <= s.len(),
        forall|k: int| 0 <= k < p ==> !bytes_le(x, #[trigger] s[k]),
        p == s.len() || bytes_le(x, s[p]),
    ensures
        lexicographically_sorted(s.insert(p, x)),
{
    let t = s.insert(p, x);
    assert forall|i: int, j: int| 0 <= i < j < t.len() implies bytes_le(#[trigger] t[i], #[trigger] t[j]) by {
        if j < p {
            assert(t[i] == s[i] && t[j] == s[j]);
        } else if j == p {
            assert(t[i] == s[i]);
            lemma_bytes_le_total(x, s[i]);
        } else if i < p {
            assert(t[i] == s[i] && t[j] == s[j - 1]);
            lemma_bytes_le_total(x, s[i]);
            if j - 1 > p {
                lemma_bytes_le_transitive(x, s[p], s[j - 1]);
            }
            lemma_bytes_le_transitive(s[i], x, s[j - 1]);
        } else if i == p {
            assert(t[j] == s[j - 1]);
            if j - 1 > p {
                lemma_bytes_le_transitive(x, s[p], s[j - 1]);
            }
        } else {
            assert(t[i] == s[i - 1] && t[j] == s[j - 1]);
        }
    }
}

/// Sorts addresses by raw byte comparison of their encodings.
pub fn sort_lexicographically(v: Vec<NetAddress>) -> (r: Vec<NetAddress>)
    ensures
        encodings(r@).to_multiset() == encodings(v@).to_multiset(),
        lexicographically_sorted(encodings(r@)),
{
    broadcast use vstd::seq_lib::group_to_multiset_ensures;

    let ghost orig = encodings(v@);
    let mut v = v;
    let mut out: Vec<NetAddress> = Vec::new();
    assert(orig.skip(orig.len() as int) =~= Seq::<Seq<u8>>::empty());
    assert(encodings(v@) =~= orig.subrange(0, v@.len() as int));
    assert(encodings(out@) =~= Seq::<Seq<u8>>::empty());
    while v.len() > 0
        invariant
            v@.len() <= orig.len(),
            encodings(v@) == orig.subrange(0, v@.len() as int),
            encodings(out@).to_multiset() == orig.skip(v@.len() as int).to_multiset(),
            lexicographically_sorted(encodings(out@)),
        decreases v@.len(),
    {
        let ghost k = v@.len() as int;
        let ghost before = v@;
        let x = v.pop().unwrap();
        assert(x@ == orig[k - 1]) by {
            assert(encodings(before)[k - 1] == orig.subrange(0, k)[k - 1]);
        }
        assert(encodings(v@) =~= orig.subrange(0, k - 1));
        let mut p: usize = 0;
        while p < out.len() && !x.bytes_le_than(&out[p])
            invariant
                p <= out@.len(),
                forall|q: int| 0 <= q < p ==> !bytes_le(x@, #[trigger] encodings(out@)[q]),
            decreases out@.len() - p,
        {
            p += 1;
        }
        let ghost s = encodings(out@);
        proof {
            lemma_insert_keeps_lex_sorted(s, x@, p as int);
            assert(orig.skip(k - 1) =~= orig.skip(k).insert(0, x@));
        }
        out.insert(p, x);
        assert(encodings(out@) =~= s.insert(p as int, x@));
        proof {
            vstd::seq_lib::to_multiset_insert(s, p as int, orig[k - 1]);
            vstd::seq_lib::to_multiset_insert(orig.skip(k), 0, orig[k - 1]);
        }
    }
    assert(orig.skip(0) =~= orig);
    out
}

} // verus!
