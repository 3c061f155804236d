//! The filter engine: compiled account filters and how they match accounts.
use vstd::prelude::*;

use crate::account::Account;
use crate::codec::{pubkey_string, pubkey_text};
use std::collections::HashMap;

verus! {

broadcast use vstd::std_specs::hash::group_hash_axioms;

/// Why a filter specification was refused.
#[derive(Debug, Clone, Copy, PartialEq, Eq, Structural)]
pub enum FilterParseError {
    InvalidOwnerFilterSyntax,
    InvalidOwnerPubkey,
    InvalidSizeFilter,
    MultipleSizeFilter,
    InvalidBytesMemcmpFilter,
    InvalidOffsetMemcmpFilter,
    InvalidMemcmpFileFilter,
    UnknownFilter,
}

/// What a content comparison expects at its offset.
pub enum MemCmpBytes {
    /// Exactly these bytes.
    One(Vec<u8>),
    /// Any one of these 32-byte values.
    AnyOf32(DigestSet),
}

/// A comparison of account data with expected bytes at an offset.
pub struct MemCmp {
    pub offset: usize,
    pub bytes: MemCmpBytes,
}

/// Accounts of one owner, optionally with an exact data length and content comparisons.
pub struct OwnerFilter {
    pub owner: Vec<u8>,
    pub size_filter: Option<u64>,
    pub memcmp_filters: Vec<MemCmp>,
}

/// Accounts picked by address, or by any one owner filter.
pub struct AccountFilter {
    pub pubkey_filters: Vec<String>,
    pub owner_filters: Vec<OwnerFilter>,
}

/// `bytes` stand in `data` at `offset`.
pub open spec fn bytes_at(data: Seq<u8>, offset: int, bytes: Seq<u8>) -> bool {
    offset + bytes.len() <= data.len() && data.subrange(offset, offset + bytes.len()) == bytes
}

/// The 32 bytes of `data` at `offset` are one of `digests`.
pub open spec fn digest_at(data: Seq<u8>, offset: int, digests: Seq<Seq<u8>>) -> bool {
    offset + 32 <= data.len() && digests.contains(data.subrange(offset, offset + 32))
}

pub open spec fn vecs_view(v: Seq<Vec<u8>>) -> Seq<Seq<u8>> {
    v.map_values(|b: Vec<u8>| b@)
}

impl MemCmp {
    pub open spec fn matches(&self, data: Seq<u8>) -> bool {
        match self.bytes {
            MemCmpBytes::One(b) => bytes_at(data, self.offset as int, b@),
            MemCmpBytes::AnyOf32(d) => digest_at(data, self.offset as int, d@),
        }
    }

    pub fn is_match(&self, data: &[u8]) -> (r: bool)
        ensures
            r == self.matches(data@),
    {
        match &self.bytes {
            MemCmpBytes::One(bytes) => bytes_equal_at(data, self.offset, bytes.as_slice()),
            MemCmpBytes::AnyOf32(set) => {
                if self.offset > data.len() || 32 > data.len() - self.offset {
                    return false;
                }
                set.contains_at(data, self.offset)
            },
        }
    }
}

/// The bucket of a 32-byte value in a `DigestSet`: its first four bytes.
pub open spec fn bucket_key(b: Seq<u8>) -> u64 {
    (b[0] as int * 16777216 + b[1] as int * 65536 + b[2] as int * 256 + b[3] as int) as u64
}

fn bucket_key_at(data: &[u8], offset: usize) -> (r: u64)
    requires
        offset + 32 <= data@.len(),
    ensures
        r == bucket_key(data@.subrange(offset as int, offset + 32)),
{
    (data[offset] as u64) * 16777216 + (data[offset + 1] as u64) * 65536 + (data[offset + 2]
        as u64) * 256 + (data[offset + 3] as u64)
}

/// A set of 32-byte values with hashed lookup. Values of another length may be held
/// but are never found.
pub struct DigestSet {
    values: Vec<Vec<u8>>,
    index: HashMap<u64, Vec<usize>>,
}

impl View for DigestSet {
    type V = Seq<Seq<u8>>;

    closed spec fn view(&self) -> Seq<Seq<u8>> {
        vecs_view(self.values@)
    }
}

impl DigestSet {
    /// Every 32-byte value is listed in the bucket of its key, and buckets list
    /// positions of values only.
    #[verifier::type_invariant]
    spec fn indexed(&self) -> bool {
        &&& forall|i: int|
            0 <= i < self.values@.len() && (#[trigger] self.values@[i])@.len() == 32
                ==> self.index@.contains_key(bucket_key(self.values@[i]@)) && self.index@[bucket_key(
                self.values@[i]@,
            )]@.contains(i as usize)
        &&& forall|k: u64, j: int|
            self.index@.contains_key(k) && 0 <= j < self.index@[k]@.len() ==> (#[trigger] self.index@[k]@[j])
                < self.values@.len()
    }

    pub fn new(values: Vec<Vec<u8>>) -> (r: Self)
        ensures
            r@ == vecs_view(values@),
    {
        let mut index: HashMap<u64, Vec<usize>> = HashMap::new();
        let mut i: usize = 0;
        while i < values.len()
            invariant
                i <= values@.len(),
                forall|ii: int|
                    0 <= ii < i && (#[trigger] values@[ii])@.len() == 32 ==> index@.contains_key(
                        bucket_key(values@[ii]@),
                    ) && index@[bucket_key(values@[ii]@)]@.contains(ii as usize),
                forall|k: u64, j: int|
                    index@.contains_key(k) && 0 <= j < index@[k]@.len() ==> (#[trigger] index@[k]@[j])
                        < i,
            decreases values@.len() - i,
        {
            if values[i].len() == 32 {
                let k = bucket_key_at(values[i].as_slice(), 0);
                assert(values@[i as int]@.subrange(0, 32) =~= values@[i as int]@);
                let ghost old_index = index@;
                let mut bucket = match index.remove(&k) {
                    Some(b) => b,
                    None => Vec::new(),
                };
                let ghost old_bucket = bucket@;
                assert(old_index.contains_key(k) ==> old_bucket == old_index[k]@);
                assert(!old_index.contains_key(k) ==> old_bucket.len() == 0);
                bucket.push(i);
                index.insert(k, bucket);
                assert(index@ == old_index.insert(k, bucket));
                assert forall|ii: int|
                    0 <= ii <= i && (#[trigger] values@[ii])@.len() == 32 implies index@.contains_key(
                    bucket_key(values@[ii]@),
                ) && index@[bucket_key(values@[ii]@)]@.contains(ii as usize) by {
                    if ii < i && bucket_key(values@[ii]@) == k {
                        let p = choose|p: int| 0 <= p < old_bucket.len() && old_bucket[p] == ii as usize;
                        assert(bucket@[p] == ii as usize);
                    }
                    if ii == i {
                        assert(bucket@[old_bucket.len() as int] == i);
                    }
                }
                assert forall|kk: u64, j: int|
                    index@.contains_key(kk) && 0 <= j < index@[kk]@.len() implies (
                    #[trigger] index@[kk]@[j]) < i + 1 by {
                    if kk == k && j < old_bucket.len() {
                        assert(old_index[k]@[j] < i);
                    }
                }
            }
            i += 1;
        }
        DigestSet { values, index }
    }

    /// Whether the 32 bytes of `data` at `offset` are one of the values.
    pub fn contains_at(&self, data: &[u8], offset: usize) -> (r: bool)
        requires
            offset + 32 <= data@.len(),
        ensures
            r == self@.contains(data@.subrange(offset as int, offset + 32)),
    {
        proof {
            use_type_invariant(self);
        }
        let ghost want = data@.subrange(offset as int, offset + 32);
        let k = bucket_key_at(data, offset);
        match self.index.get(&k) {
            None => {
                assert(!self@.contains(want)) by {
                    if self@.contains(want) {
                        let i = choose|i: int| 0 <= i < self@.len() && self@[i] == want;
                        assert(self.values@[i]@ == want);
                    }
                }
                false
            },
            Some(bucket) => {
                assert forall|jj: int| 0 <= jj < bucket@.len() implies #[trigger] bucket@[jj] < self.values@.len() by {
                    assert(self.index@[k]@[jj] < self.values@.len());
                }
                let mut j: usize = 0;
                while j < bucket.len()
                    invariant
                        j <= bucket@.len(),
                        self.index@.contains_key(k),
                        *bucket == self.index@[k],
                        k == bucket_key(want),
                        want == data@.subrange(offset as int, offset + 32),
                        offset + 32 <= data@.len(),
                        forall|jj: int| 0 <= jj < bucket@.len() ==> #[trigger] bucket@[jj] < self.values@.len(),
                        forall|jj: int| 0 <= jj < j ==> self.values@[#[trigger] bucket@[jj] as int]@ != want,
                    decreases bucket@.len() - j,
                {
                    proof {
                        use_type_invariant(self);
                    }
                    let p = bucket[j];
                    assert(self.index@[k]@[j as int] < self.values@.len());
                    if self.values[p].len() == 32 && bytes_equal_at(data, offset, self.values[p].as_slice()) {
                        assert(self@[p as int] == want);
                        return true;
                    }
                    j += 1;
                }
                proof {
                    use_type_invariant(self);
                }
                proof {
                    if self@.contains(want) {
                        let i = choose|i: int| 0 <= i < self@.len() && self@[i] == want;
                        assert(self.values@[i]@ == want);
                        assert(self.values@[i]@.len() == 32);
                        assert(i < self.values.len());
                        assert(bucket_key(self.values@[i]@) == k);
                        assert(self.index@[k]@.contains(i as usize));
                        let p = choose|p: int| 0 <= p < bucket@.len() && bucket@[p] == i as usize;
                        assert(self.values@[bucket@[p] as int]@ != want);
                        assert(false);
                    }
                }
                false
            },
        }
    }
}

/// Whether `bytes` stand in `data` at `offset`.
fn bytes_equal_at(data: &[u8], offset: usize, bytes: &[u8]) -> (r: bool)
    ensures
        r == bytes_at(data@, offset as int, bytes@),
{
    if offset > data.len() || bytes.len() > data.len() - offset {
        return false;
    }
    let mut i: usize = 0;
    while i < bytes.len()
        invariant
            i <= bytes@.len(),
            offset + bytes@.len() <= data.len(),
            forall|k: int| 0 <= k < i ==> data@[offset + k] == bytes@[k],
        decreases bytes@.len() - i,
    {
        if data[offset + i] != bytes[i] {
            assert(data@.subrange(offset as int, offset + bytes@.len())[i as int] != bytes@[i as int]);
            return false;
        }
        i += 1;
    }
    assert(data@.subrange(offset as int, offset + bytes@.len()) =~= bytes@);
    true
}

/// Whether two byte strings are equal.
fn same_bytes(a: &Vec<u8>, b: &Vec<u8>) -> (r: bool)
    ensures
        r == (a@ == b@),
{
    if a.len() != b.len() {
        return false;
    }
    let r = bytes_equal_at(a.as_slice(), 0, b.as_slice());
    assert(a@.subrange(0, b@.len() as int) =~= a@);
    r
}

/// Whether two texts are equal.
fn same_text(a: &String, b: &String) -> (r: bool)
    ensures
        r == (a@ == b@),
{
    let x = a.as_str();
    let y = b.as_str();
    let n = x.unicode_len();
    if n != y.unicode_len() {
        return false;
    }
    let mut i: usize = 0;
    while i < n
        invariant
            n == x@.len(),
            n == y@.len(),
            x@ == a@,
            y@ == b@,
            i <= n,
            forall|k: int| 0 <= k < i ==> x@[k] == y@[k],
        decreases n - i,
    {
        if x.get_char(i) != y.get_char(i) {
            return false;
        }
        i += 1;
    }
    assert(x@ =~= y@);
    true
}

impl OwnerFilter {
    pub open spec fn matches(&self, account: &Account) -> bool {
        &&& account.owner@ == self.owner@
        &&& match self.size_filter {
            Some(size) => account.data_len == size,
            None => true,
        }
        &&& forall|i: int|
            0 <= i < self.memcmp_filters@.len() ==> (#[trigger] self.memcmp_filters@[i]).matches(
                account.data@,
            )
    }

    pub fn is_match(&self, account: &Account) -> (r: bool)
        ensures
            r == self.matches(account),
    {
        if !same_bytes(&account.owner, &self.owner) {
            return false;
        }
        match self.size_filter {
            Some(size) => {
                if account.data_len != size {
                    return false;
                }
            },
            None => {},
        }
        let mut i: usize = 0;
        while i < self.memcmp_filters.len()
            invariant
                i <= self.memcmp_filters@.len(),
                forall|k: int|
                    0 <= k < i ==> (#[trigger] self.memcmp_filters@[k]).matches(account.data@),
            decreases self.memcmp_filters@.len() - i,
        {
            if !self.memcmp_filters[i].is_match(account.data.as_slice()) {
                return false;
            }
            i += 1;
        }
        true
    }
}

impl AccountFilter {
    /// The account's address is one of the listed ones.
    pub open spec fn picks_pubkey(&self, account: &Account) -> bool {
        exists|i: int|
            0 <= i < self.pubkey_filters@.len() && (#[trigger] self.pubkey_filters@[i])@
                == pubkey_string(account.pubkey@)
    }

    /// Some owner filter matches the account.
    pub open spec fn picks_owner(&self, account: &Account) -> bool {
        exists|i: int|
            0 <= i < self.owner_filters@.len() && (#[trigger] self.owner_filters@[i]).matches(
                account,
            )
    }

    pub open spec fn is_empty(&self) -> bool {
        self.pubkey_filters@.len() == 0 && self.owner_filters@.len() == 0
    }

    pub open spec fn matches(&self, account: &Account) -> bool {
        self.is_empty() || self.picks_pubkey(account) || self.picks_owner(account)
    }

    pub fn is_match(&self, account: &Account) -> (r: bool)
        requires
            account.wf(),
        ensures
            r == self.matches(account),
    {
        if self.pubkey_filters.len() == 0 && self.owner_filters.len() == 0 {
            return true;
        }
        let key = pubkey_text(&account.pubkey);
        let mut i: usize = 0;
        while i < self.pubkey_filters.len()
            invariant
                i <= self.pubkey_filters@.len(),
                key@ == pubkey_string(account.pubkey@),
                forall|k: int| 0 <= k < i ==> (#[trigger] self.pubkey_filters@[k])@ != key@,
            decreases self.pubkey_filters@.len() - i,
        {
            if same_text(&self.pubkey_filters[i], &key) {
                return true;
            }
            i += 1;
        }
        let mut j: usize = 0;
        while j < self.owner_filters.len()
            invariant
                j <= self.owner_filters@.len(),
                !self.picks_pubkey(account),
                forall|k: int| 0 <= k < j ==> !(#[trigger] self.owner_filters@[k]).matches(account),
            decreases self.owner_filters@.len() - j,
        {
            if self.owner_filters[j].is_match(account) {
                return true;
            }
            j += 1;
        }
        false
    }
}

/// The positions of the accounts among the first `n` that the filter matches, in order.
pub open spec fn matching_positions(f: AccountFilter, accounts: Seq<Account>, n: int) -> Seq<usize>
    decreases n,
{
    if n <= 0 {
        Seq::empty()
    } else if f.matches(&accounts[n - 1]) {
        matching_positions(f, accounts, n - 1).push((n - 1) as usize)
    } else {
        matching_positions(f, accounts, n - 1)
    }
}

impl AccountFilter {
    /// The positions of the matching accounts of a stream, in stream order.
    pub fn select(&self, accounts: &Vec<Account>) -> (r: Vec<usize>)
        requires
            forall|i: int| 0 <= i < accounts@.len() ==> (#[trigger] accounts@[i]).wf(),
        ensures
            r@ == matching_positions(*self, accounts@, accounts@.len() as int),
    {
        let mut r: Vec<usize> = Vec::new();
        let mut i: usize = 0;
        while i < accounts.len()
            invariant
                i <= accounts@.len(),
                forall|k: int| 0 <= k < accounts@.len() ==> (#[trigger] accounts@[k]).wf(),
                r@ == matching_positions(*self, accounts@, i as int),
            decreases accounts@.len() - i,
        {
            if self.is_match(&accounts[i]) {
                r.push(i);
            }
            i += 1;
        }
        r
    }
}

/// A filter with no addresses and no owner filters matches every account.
pub proof fn law_empty_filter_matches_all(f: AccountFilter, a: Account)
    requires
        f.pubkey_filters@.len() == 0,
        f.owner_filters@.len() == 0,
    ensures
        f.matches(&a),
{
}

/// An account whose address text is listed matches, whatever its owner, length and data.
pub proof fn law_listed_pubkey_matches(f: AccountFilter, a: Account, i: int)
    requires
        0 <= i < f.pubkey_filters@.len(),
        f.pubkey_filters@[i]@ == pubkey_string(a.pubkey@),
    ensures
        f.matches(&a),
        forall|b: Account| #[trigger] f.matches(&b) <== b.pubkey@ == a.pubkey@,
{
    assert forall|b: Account| b.pubkey@ == a.pubkey@ implies #[trigger] f.matches(&b) by {
        assert(f.pubkey_filters@[i]@ == pubkey_string(b.pubkey@));
    }
}

/// The constraints of one owner filter all have to hold: a failed size rules the
/// owner filter out even when its owner and contents match.
pub proof fn law_owner_filter_size_required(f: OwnerFilter, a: Account)
    requires
        f.owner@ == a.owner@,
        f.size_filter is Some,
        f.size_filter->0 != a.data_len,
    ensures
        !f.matches(&a),
{
}

/// One owner filter that matches is enough, whatever the owner filters around it do;
/// when no address is listed and no owner filter matches, the account is not matched.
pub proof fn law_owner_filters_disjunction(f: AccountFilter, a: Account)
    ensures
        forall|j: int|
            0 <= j < f.owner_filters@.len() && (#[trigger] f.owner_filters@[j]).matches(&a)
                ==> f.matches(&a),
        !f.is_empty() && !f.picks_pubkey(&a) ==> (f.matches(&a) <==> exists|j: int|
            0 <= j < f.owner_filters@.len() && (#[trigger] f.owner_filters@[j]).matches(&a)),
{
}

/// The order of the owner filters does not change what matches.
pub proof fn law_owner_filter_order(f: AccountFilter, g: AccountFilter, a: Account)
    requires
        f.pubkey_filters@ == g.pubkey_filters@,
        forall|i: int|
            0 <= i < f.owner_filters@.len() ==> exists|j: int|
                0 <= j < g.owner_filters@.len() && g.owner_filters@[j] == #[trigger] f.owner_filters@[i],
        forall|j: int|
            0 <= j < g.owner_filters@.len() ==> exists|i: int|
                0 <= i < f.owner_filters@.len() && f.owner_filters@[i] == #[trigger] g.owner_filters@[j],
    ensures
        f.matches(&a) == g.matches(&a),
{
    if f.picks_owner(&a) {
        let i = choose|i: int|
            0 <= i < f.owner_filters@.len() && (#[trigger] f.owner_filters@[i]).matches(&a);
        let j = choose|j: int|
            0 <= j < g.owner_filters@.len() && g.owner_filters@[j] == #[trigger] f.owner_filters@[i];
        assert(g.owner_filters@[j].matches(&a));
    }
    if g.picks_owner(&a) {
        let j = choose|j: int|
            0 <= j < g.owner_filters@.len() && (#[trigger] g.owner_filters@[j]).matches(&a);
        let i = choose|i: int|
            0 <= i < f.owner_filters@.len() && f.owner_filters@[i] == #[trigger] g.owner_filters@[j];
        assert(f.owner_filters@[i].matches(&a));
    }
    if g.owner_filters@.len() > 0 {
        let i = choose|i: int|
            0 <= i < f.owner_filters@.len() && f.owner_filters@[i] == #[trigger] g.owner_filters@[0];
        assert(f.owner_filters@.len() > 0);
    }
    if f.owner_filters@.len() > 0 {
        let j = choose|j: int|
            0 <= j < g.owner_filters@.len() && g.owner_filters@[j] == #[trigger] f.owner_filters@[0];
        assert(g.owner_filters@.len() > 0);
    }
    assert(f.is_empty() == g.is_empty());
    assert(f.picks_pubkey(&a) == g.picks_pubkey(&a));
}

} // verus!
