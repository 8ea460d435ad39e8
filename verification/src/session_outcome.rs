//! The outcome of a consensus session: the items accepted in it, the header
//! that the federation signs over, and the status of a session.
use std::collections::BTreeMap;
use vstd::prelude::*;

verus! {

/// The SHA-256 digest of a byte string.
pub uninterp spec fn sha256_digest(data: Seq<u8>) -> Seq<u8>;

/// One level up a merkle tree: the SHA-256 digest of each pair of adjacent
/// hashes, concatenated, the last hash of an odd level paired with itself.
pub open spec fn merkle_level(hashes: Seq<Seq<u8>>) -> Seq<Seq<u8>> {
    Seq::new(
        ((hashes.len() + 1) / 2) as nat,
        |i: int|
            sha256_digest(
                hashes[2 * i] + hashes[if 2 * i + 1 < hashes.len() {
                    2 * i + 1
                } else {
                    2 * i
                }],
            ),
    )
}

/// The merkle root of a nonempty list of SHA-256 hashes: the hash itself when
/// there is one, else the root of the level above.
pub open spec fn merkle_root_of(leaves: Seq<Seq<u8>>) -> Seq<u8>
    decreases leaves.len(),
{
    if leaves.len() <= 1 {
        leaves[0]
    } else {
        merkle_root_of(merkle_level(leaves))
    }
}

/// `bitcoin::hashes::sha256::Hash::hash`, as bytes. Claims that the result is
/// named by `sha256_digest`.
#[verifier::external_body]
fn sha256(data: &[u8]) -> (r: [u8; 32])
    ensures
        r@ == sha256_digest(data@),
{
    <bitcoin::hashes::sha256::Hash as bitcoin::hashes::Hash>::to_byte_array(
        <bitcoin::hashes::sha256::Hash as bitcoin::hashes::Hash>::hash(data),
    )
}

/// `bitcoin::merkle_tree::calculate_root` over SHA-256 hashes given as bytes.
/// Claims what its documentation and source show: `None` exactly when there
/// is no hash, the hash itself when there is one, and otherwise the root
/// built by hashing the concatenation of each pair of hashes (the last one of
/// an odd level paired with itself) until one hash is left.
#[verifier::external_body]
fn merkle_root(leaves: &Vec<[u8; 32]>) -> (r: Option<[u8; 32]>)
    ensures
        r.is_none() <==> leaves.len() == 0,
        leaves.len() == 1 ==> r == Some(leaves[0]),
        r matches Some(root) ==> root@ == merkle_root_of(leaves@.map_values(|h: [u8; 32]| h@)),
{
    bitcoin::merkle_tree::calculate_root(
        leaves.iter().map(
            |h| <bitcoin::hashes::sha256::Hash as bitcoin::hashes::Hash>::from_byte_array(*h),
        ),
    ).map(|root| <bitcoin::hashes::sha256::Hash as bitcoin::hashes::Hash>::to_byte_array(root))
}

/// The identifier of a peer of the federation.
#[derive(Clone, Copy, Debug, PartialEq, Eq, PartialOrd, Ord, Hash)]
pub struct PeerId(pub u16);

/// An item of consensus, held as its consensus encoding.
#[derive(Clone, Debug, PartialEq, Eq)]
pub struct ConsensusItem(pub Vec<u8>);

/// A consensus item accepted in the consensus
///
/// If two correct nodes obtain two ordered items from the broadcast they
/// are guaranteed to be in the same order. However, an ordered items is
/// only guaranteed to be seen by all correct nodes if a correct node decides to
/// accept it.
#[derive(Clone, Debug, PartialEq, Eq)]
pub struct AcceptedItem {
    pub item: ConsensusItem,
    pub peer: PeerId,
}

/// Items ordered in a single session that have been accepted by the
/// consensus.
///
/// A running federation produces a `SessionOutcome` every couple of minutes.
/// Therefore, just like in Bitcoin, a `SessionOutcome` might be empty if no
/// items are ordered in that time or all ordered items are discarded by the
/// consensus.
///
/// When a session is closed it is signed over by the peers and produces a
/// `SignedSessionOutcome`.
#[derive(Clone, Debug, PartialEq, Eq)]
pub struct SessionOutcome {
    pub items: Vec<AcceptedItem>,
}

/// A Schnorr signature: 64 bytes.
#[derive(Clone, Debug, PartialEq, Eq, Hash)]
pub struct SchnorrSignature(pub [u8; 64]);

/// A `SessionOutcome`, signed by the federation.
///
/// A signed block combines a block with the naive threshold Schnorr
/// signature for its header created by the federation. The signed blocks allow
/// clients and recovering guardians to verify the federation's consensus
/// history. After a signed block has been created it is stored in the database.
#[derive(Clone, Debug, PartialEq, Eq)]
pub struct SignedSessionOutcome {
    pub session_outcome: SessionOutcome,
    pub signatures: BTreeMap<PeerId, SchnorrSignature>,
}

#[derive(Clone, Debug, PartialEq, Eq)]
pub enum SessionStatus {
    Initial,
    Pending(Vec<AcceptedItem>),
    Complete(SessionOutcome),
}

#[derive(Clone, Debug, PartialEq, Eq)]
pub enum SessionStatusV2 {
    Initial,
    Pending(Vec<AcceptedItem>),
    Complete(SignedSessionOutcome),
}

impl From<SessionStatusV2> for SessionStatus {
    fn from(value: SessionStatusV2) -> (r: Self)
        ensures
            (value is Initial) == (r is Initial),
            (value is Pending) == (r is Pending),
            (value is Complete) == (r is Complete),
            value matches SessionStatusV2::Pending(items) ==> r == SessionStatus::Pending(items),
            value matches SessionStatusV2::Complete(signed) ==> r == SessionStatus::Complete(
                signed.session_outcome,
            ),
    {
        match value {
            SessionStatusV2::Initial => SessionStatus::Initial,
            SessionStatusV2::Pending(items) => SessionStatus::Pending(items),
            SessionStatusV2::Complete(signed_session_outcome) => {
                SessionStatus::Complete(signed_session_outcome.session_outcome)
            },
        }
    }
}

impl vstd::std_specs::convert::FromSpecImpl<SessionStatusV2> for SessionStatus {
    open spec fn obeys_from_spec() -> bool {
        true
    }

    /// The same status, with a completed session's signatures dropped.
    open spec fn from_spec(v: SessionStatusV2) -> SessionStatus {
        match v {
            SessionStatusV2::Initial => SessionStatus::Initial,
            SessionStatusV2::Pending(items) => SessionStatus::Pending(items),
            SessionStatusV2::Complete(signed) => SessionStatus::Complete(signed.session_outcome),
        }
    }
}

/// The consensus encoding of a peer identifier: the identifier as a
/// `BigSize` integer, one byte below `0xfd`, else `0xfd` and the two
/// big-endian bytes.
pub open spec fn peer_id_encoding(peer: PeerId) -> Seq<u8> {
    if peer.0 < 0xfd {
        seq![peer.0 as u8]
    } else {
        seq![0xfdu8, (peer.0 / 256) as u8, (peer.0 % 256) as u8]
    }
}

/// The consensus encoding of an accepted item: the item's encoding followed
/// by the peer's.
pub open spec fn accepted_item_encoding(item: AcceptedItem) -> Seq<u8> {
    item.item.0@ + peer_id_encoding(item.peer)
}

/// The consensus hashes of the items: the SHA-256 digests of their consensus
/// encodings.
pub open spec fn leaf_hashes(items: Seq<AcceptedItem>) -> Seq<Seq<u8>> {
    items.map_values(|item: AcceptedItem| sha256_digest(accepted_item_encoding(item)))
}

/// The eight big-endian bytes of an index.
pub open spec fn index_be_bytes(index: u64) -> Seq<u8> {
    seq![
        (index / 0x100000000000000) as u8,
        (index / 0x1000000000000 % 256) as u8,
        (index / 0x10000000000 % 256) as u8,
        (index / 0x100000000 % 256) as u8,
        (index / 0x1000000 % 256) as u8,
        (index / 0x10000 % 256) as u8,
        (index / 0x100 % 256) as u8,
        (index % 256) as u8,
    ]
}

/// The header of a session: its index in big-endian bytes followed by the
/// merkle root of the items' consensus hashes (the one hash itself when there
/// is one item), or by 32 zero bytes when the session has no item.
pub open spec fn session_header(index: u64, items: Seq<AcceptedItem>) -> Seq<u8> {
    index_be_bytes(index) + if items.len() == 0 {
        Seq::new(32, |i: int| 0u8)
    } else if items.len() == 1 {
        leaf_hashes(items)[0]
    } else {
        merkle_root_of(leaf_hashes(items))
    }
}

impl PeerId {
    /// The consensus encoding of the identifier.
    pub fn consensus_encode(&self) -> (r: Vec<u8>)
        ensures
            r@ == peer_id_encoding(*self),
    {
        let mut r: Vec<u8> = Vec::new();
        if self.0 < 0xfd {
            r.push(self.0 as u8);
        } else {
            r.push(0xfdu8);
            r.push((self.0 / 256) as u8);
            r.push((self.0 % 256) as u8);
        }
        assert(r@ =~= peer_id_encoding(*self));
        r
    }
}

impl AcceptedItem {
    /// The consensus encoding of the accepted item.
    pub fn consensus_encode(&self) -> (r: Vec<u8>)
        ensures
            r@ == accepted_item_encoding(*self),
            r@.len() == self.item.0@.len() + peer_id_encoding(self.peer).len(),
            r@.subrange(0, self.item.0@.len() as int) == self.item.0@,
            r@.subrange(self.item.0@.len() as int, r@.len() as int) == peer_id_encoding(self.peer),
    {
        let mut r: Vec<u8> = Vec::new();
        let mut i: usize = 0;
        while i < self.item.0.len()
            invariant
                i <= self.item.0.len(),
                r@ == self.item.0@.subrange(0, i as int),
            decreases self.item.0.len() - i,
        {
            r.push(self.item.0[i]);
            i = i + 1;
            assert(r@ =~= self.item.0@.subrange(0, i as int));
        }
        let peer = self.peer.consensus_encode();
        let mut j: usize = 0;
        let ghost prefix = r@;
        assert(prefix =~= self.item.0@);
        while j < peer.len()
            invariant
                j <= peer.len(),
                r@ == prefix + peer@.subrange(0, j as int),
            decreases peer.len() - j,
        {
            r.push(peer[j]);
            j = j + 1;
            assert(r@ =~= prefix + peer@.subrange(0, j as int));
        }
        assert(peer@.subrange(0, peer.len() as int) =~= peer@);
        assert(r@.subrange(0, self.item.0@.len() as int) =~= self.item.0@);
        assert(r@.subrange(self.item.0@.len() as int, r@.len() as int) =~= peer@);
        r
    }

    /// The consensus hash of the accepted item: the SHA-256 digest of its
    /// consensus encoding.
    pub fn consensus_hash(&self) -> (r: [u8; 32])
        ensures
            r@ == sha256_digest(accepted_item_encoding(*self)),
            r@ == sha256_digest(self.item.0@ + peer_id_encoding(self.peer)),
    {
        let encoding = self.consensus_encode();
        assert(encoding@ =~= self.item.0@ + peer_id_encoding(self.peer));
        sha256(encoding.as_slice())
    }
}

impl SessionOutcome {
    /// A block's header consists of 40 bytes formed by its index in big endian
    /// bytes concatenated with the merkle root built from the consensus
    /// hashes of its `AcceptedItem`s or 32 zero bytes if the block is
    /// empty. The use of a merkle tree allows for efficient inclusion
    /// proofs of accepted consensus items for clients.
    pub fn header(&self, index: u64) -> (r: [u8; 40])
        ensures
            r@ == session_header(index, self.items@),
            big_endian_value(r@.subrange(0, 8)) == index,
            self.items.len() == 0 ==> r@.subrange(8, 40) == Seq::new(32, |i: int| 0u8),
            self.items.len() > 0 ==> r@.subrange(8, 40) == merkle_root_of(
                self.items@.map_values(
                    |item: AcceptedItem| sha256_digest(item.item.0@ + peer_id_encoding(item.peer)),
                ),
            ),
    {
        let mut header: [u8; 40] = [0u8; 40];
        header[0] = (index / 0x100000000000000) as u8;
        header[1] = (index / 0x1000000000000 % 256) as u8;
        header[2] = (index / 0x10000000000 % 256) as u8;
        header[3] = (index / 0x100000000 % 256) as u8;
        header[4] = (index / 0x1000000 % 256) as u8;
        header[5] = (index / 0x10000 % 256) as u8;
        header[6] = (index / 0x100 % 256) as u8;
        header[7] = (index % 256) as u8;
        let mut leaves: Vec<[u8; 32]> = Vec::new();
        let mut k: usize = 0;
        while k < self.items.len()
            invariant
                k <= self.items.len(),
                leaves.len() == k,
                forall|i: int|
                    0 <= i < k ==> #[trigger] leaves[i]@ == sha256_digest(
                        accepted_item_encoding(self.items[i]),
                    ),
            decreases self.items.len() - k,
        {
            let leaf = self.items[k].consensus_hash();
            leaves.push(leaf);
            k = k + 1;
        }
        assert(leaves@.map_values(|h: [u8; 32]| h@) =~= leaf_hashes(self.items@));
        let ghost before = header@;
        match merkle_root(&leaves) {
            Some(root) => {
                let mut j: usize = 0;
                while j < 32
                    invariant
                        j <= 32,
                        header@.subrange(0, 8) == before.subrange(0, 8),
                        header@.subrange(8, 8 + j as int) == root@.subrange(0, j as int),
                    decreases 32 - j,
                {
                    header[8 + j] = root[j];
                    j = j + 1;
                    assert(header@.subrange(8, 8 + j as int) =~= root@.subrange(0, j as int));
                    assert(header@.subrange(0, 8) =~= before.subrange(0, 8));
                }
                assert(header@ =~= header@.subrange(0, 8) + header@.subrange(8, 40));
                assert(root@.subrange(0, 32) =~= root@);
                if self.items.len() == 1 {
                    assert(root == leaves[0]);
                    assert(leaves@.map_values(|h: [u8; 32]| h@)[0] == leaves[0]@);
                }
            },
            None => {
                assert(header@.subrange(8, 40) =~= Seq::new(32, |i: int| 0u8));
                assert(header@ =~= header@.subrange(0, 8) + header@.subrange(8, 40));
            },
        }
        assert(header@.subrange(0, 8) =~= index_be_bytes(index));
        proof {
            lemma_header_reads_index(index, self.items@);
            lemma_header_root(index, self.items@);
            assert(header@.subrange(8, 40) =~= header@.skip(8));
        }
        header
    }
}


/// The value of bytes read as a big-endian unsigned integer.
pub open spec fn big_endian_value(bytes: Seq<u8>) -> nat
    decreases bytes.len(),
{
    if bytes.len() == 0 {
        0
    } else {
        big_endian_value(bytes.drop_last()) * 256 + bytes.last() as nat
    }
}

/// Dropping the last base-256 digit of `x / d`: it is `x / (256 * d)`.
proof fn lemma_next_digit(x: nat, d: nat)
    requires
        d > 0,
    ensures
        (x / (d * 256)) * 256 + (x / d) % 256 == x / d,
{
    vstd::arithmetic::div_mod::lemma_div_denominator(x as int, d as int, 256);
    vstd::arithmetic::div_mod::lemma_fundamental_div_mod((x / d) as int, 256);
}

/// The first eight bytes of a session header, read as a big-endian integer,
/// are the session's index.
pub proof fn lemma_header_reads_index(index: u64, items: Seq<AcceptedItem>)
    ensures
        big_endian_value(session_header(index, items).subrange(0, 8)) == index,
{
    let h = session_header(index, items);
    let b = h.subrange(0, 8);
    let x = index as nat;
    assert(b =~= index_be_bytes(index));
    lemma_next_digit(x, 0x100000000000000);
    lemma_next_digit(x, 0x1000000000000);
    lemma_next_digit(x, 0x10000000000);
    lemma_next_digit(x, 0x100000000);
    lemma_next_digit(x, 0x1000000);
    lemma_next_digit(x, 0x10000);
    lemma_next_digit(x, 0x100);
    lemma_next_digit(x, 1);
    assert(x / 0x100000000000000 < 256);
    assert(x / (0x100000000000000 * 256) == 0) by {
        vstd::arithmetic::div_mod::lemma_basic_div(x as int, 0x100000000000000int * 256);
    }
    assert(b.subrange(0, 1).drop_last() =~= Seq::<u8>::empty());
    assert(b.subrange(0, 2).drop_last() =~= b.subrange(0, 1));
    assert(b.subrange(0, 3).drop_last() =~= b.subrange(0, 2));
    assert(b.subrange(0, 4).drop_last() =~= b.subrange(0, 3));
    assert(b.subrange(0, 5).drop_last() =~= b.subrange(0, 4));
    assert(b.subrange(0, 6).drop_last() =~= b.subrange(0, 5));
    assert(b.subrange(0, 7).drop_last() =~= b.subrange(0, 6));
    assert(b.drop_last() =~= b.subrange(0, 7));
    assert(big_endian_value(Seq::<u8>::empty()) == 0);
    assert(b[0] == (x / 0x100000000000000) as u8);
    assert(b[0] == x / 0x100000000000000);
    assert(b.subrange(0, 1).last() == b[0]);
    assert(big_endian_value(b.subrange(0, 1)) == x / 0x100000000000000);
    assert(big_endian_value(b.subrange(0, 2)) == x / 0x1000000000000);
    assert(big_endian_value(b.subrange(0, 3)) == x / 0x10000000000);
    assert(big_endian_value(b.subrange(0, 4)) == x / 0x100000000);
    assert(big_endian_value(b.subrange(0, 5)) == x / 0x1000000);
    assert(big_endian_value(b.subrange(0, 6)) == x / 0x10000);
    assert(big_endian_value(b.subrange(0, 7)) == x / 0x100);
    assert(big_endian_value(b) == x / 1);
}

/// An accepted item's consensus encoding is the item's bytes, unchanged,
/// followed by the peer's encoding.
pub proof fn lemma_accepted_item_encoding(item: AcceptedItem)
    ensures
        accepted_item_encoding(item).len() == item.item.0@.len() + peer_id_encoding(item.peer).len(),
        accepted_item_encoding(item).subrange(0, item.item.0@.len() as int) == item.item.0@,
        accepted_item_encoding(item).skip(item.item.0@.len() as int) == peer_id_encoding(item.peer),
{
    let e = accepted_item_encoding(item);
    assert(e.subrange(0, item.item.0@.len() as int) =~= item.item.0@);
    assert(e.skip(item.item.0@.len() as int) =~= peer_id_encoding(item.peer));
}

/// After the index, a session header holds 32 zero bytes when the session
/// is empty, and otherwise the merkle root of the SHA-256 digests of the
/// items' bytes each followed by its peer's encoding (for a single item,
/// that digest itself).
pub proof fn lemma_header_root(index: u64, items: Seq<AcceptedItem>)
    ensures
        items.len() == 0 ==> session_header(index, items).skip(8) == Seq::new(32, |i: int| 0u8),
        items.len() > 0 ==> session_header(index, items).skip(8) == merkle_root_of(
            items.map_values(
                |item: AcceptedItem| sha256_digest(item.item.0@ + peer_id_encoding(item.peer)),
            ),
        ),
        items.len() == 1 ==> session_header(index, items).skip(8) == sha256_digest(
            items[0].item.0@ + peer_id_encoding(items[0].peer),
        ),
{
    let h = session_header(index, items);
    let leaves = items.map_values(
        |item: AcceptedItem| sha256_digest(item.item.0@ + peer_id_encoding(item.peer)),
    );
    assert(leaf_hashes(items) =~= leaves);
    assert(index_be_bytes(index).len() == 8);
    if items.len() == 0 {
        assert(h.skip(8) =~= Seq::new(32, |i: int| 0u8));
    } else if items.len() == 1 {
        assert(h.skip(8) =~= leaves[0]);
    } else {
        assert(h.skip(8) =~= merkle_root_of(leaves));
    }
}

/// Converting a status keeps its kind: the initial status stays initial,
/// pending items stay pending as they are, and a completed session stays
/// complete with its outcome, whatever items it holds (none included), only
/// its signatures being dropped.
pub proof fn lemma_status_conversion(value: SessionStatusV2)
    ensures
        (value is Initial) == (<SessionStatus as vstd::std_specs::convert::FromSpec<
            SessionStatusV2,
        >>::from_spec(value) is Initial),
        value matches SessionStatusV2::Pending(items) ==> <SessionStatus as vstd::std_specs::convert::FromSpec<
            SessionStatusV2,
        >>::from_spec(value) == SessionStatus::Pending(items),
        value matches SessionStatusV2::Complete(signed) ==> <SessionStatus as vstd::std_specs::convert::FromSpec<
            SessionStatusV2,
        >>::from_spec(value) == SessionStatus::Complete(signed.session_outcome),
{
}

} // verus!
